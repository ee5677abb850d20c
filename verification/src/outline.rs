//! The JSON reports as values: what a reader of a report gets back from it.

use crate::json::render::{encoding, escapes, items_encoding, members_encoding, quoted};
use crate::json::value::{kind_name, Json, Kind};
use crate::number::decimal;
use crate::record::records;
use crate::report::{
    field_as_json, fields_as_json, issue_as_json, joined, key_as_json, lengths_as_json,
    line_counts_as_json, lists_tops, number_or_null, path_as_json, schema_as_json, stats_as_json,
    text_or, tops_of, truth, type_as_json, types_as_json, value_as_json, values_as_json, Lengths,
};
use crate::schema::{PathStats, Schema};
use crate::stats::{encodings, field_values, FieldStats, Issue, KeyStats, Stats};
use crate::tally::lemma_tracked_items;
use vstd::prelude::*;

verus! {

/// A number, or null if there is none.
pub open spec fn figure(n: Option<u64>) -> Json {
    match n {
        Some(n) => Json::Int(n as int),
        None => Json::Null,
    }
}

/// A number with a fraction, or null if there is none.
pub open spec fn fraction(s: Option<String>) -> Json {
    match s {
        Some(s) => Json::Float(s@),
        None => Json::Null,
    }
}

/// Types and their counts: a member for each type.
pub open spec fn types_value(types: Seq<(Kind, nat)>) -> Json {
    Json::Object(
        types.map_values(|pair: (Kind, nat)| (kind_name(pair.0), Json::Int(pair.1 as int))),
    )
}

/// The lengths of the lines.
pub open spec fn lengths_value(l: Lengths) -> Json {
    Json::Object(
        seq![
            ("count"@, Json::Int(l.count as int)),
            ("min"@, figure(l.min)),
            ("p50"@, figure(l.p50)),
            ("p90"@, figure(l.p90)),
            ("p99"@, figure(l.p99)),
            ("max"@, figure(l.max)),
            ("mean"@, fraction(l.mean)),
        ],
    )
}

/// A frequent value and its count.
pub open spec fn frequent_value(value: Json, count: u64) -> Json {
    Json::Object(seq![("value"@, value), ("count"@, Json::Int(count as int))])
}

/// A field with its frequent values.
pub open spec fn field_value(field: FieldStats, top: Seq<(String, u64)>, values: Seq<Json>) -> Json {
    Json::Object(
        seq![
            ("path"@, Json::Str(field.path.text())),
            ("present"@, Json::Int(field.present as int)),
            ("values"@, Json::Int(field.values as int)),
            ("distinct"@, Json::Int(field.value_counts.names().len() as int)),
            ("values_capped"@, Json::Bool(field.values_capped)),
            ("types"@, types_value(field.types@)),
            ("top"@, Json::Array(Seq::new(top.len(), |i: int| frequent_value(values[i], top[i].1)))),
        ],
    )
}

/// A key.
pub open spec fn key_value(key: KeyStats) -> Json {
    Json::Object(
        seq![
            ("key"@, Json::Str(key.key@)),
            ("count"@, Json::Int(key.count as int)),
            ("types"@, types_value(key.types@)),
        ],
    )
}

/// A broken line.
pub open spec fn issue_value(issue: Issue) -> Json {
    Json::Object(
        seq![
            ("line"@, Json::Int(issue.line as int)),
            ("column"@, Json::Int(issue.column as int)),
            ("reason"@, Json::Str(issue.reason@)),
        ],
    )
}

/// The statistics: the counts of lines, the types at the top level, the lengths, every
/// key that is listed, every issue that was kept, and every field.
pub open spec fn stats_value(
    stats: Stats,
    keys: Seq<&KeyStats>,
    tops: Seq<Vec<(String, u64)>>,
    values: Seq<Seq<Json>>,
    lengths: Lengths,
) -> Json {
    Json::Object(
        seq![
            ("lines"@, Json::Int(stats.lines as int)),
            ("blank"@, Json::Int(stats.blank as int)),
            ("valid"@, Json::Int(stats.valid as int)),
            ("invalid"@, Json::Int(stats.lines - stats.blank - stats.valid)),
            ("bytes"@, Json::Int(stats.bytes as int)),
            ("top_level_types"@, types_value(stats.top_level_types@)),
            ("line_length"@, lengths_value(lengths)),
            ("keys_capped"@, Json::Bool(stats.keys_capped)),
            ("keys"@, Json::Array(keys.map_values(|key: &KeyStats| key_value(*key)))),
            ("issues_truncated"@, Json::Int(stats.issues_truncated as int)),
            ("issues"@, Json::Array(stats.issues@.map_values(|issue: Issue| issue_value(issue)))),
            (
                "fields"@,
                Json::Array(
                    Seq::new(
                        stats.fields@.len(),
                        |i: int| field_value(stats.fields@[i], tops[i]@, values[i]),
                    ),
                ),
            ),
        ],
    )
}

/// A path and the share of records that contain it.
pub open spec fn path_value(path: PathStats, rate: Seq<char>) -> Json {
    Json::Object(
        seq![
            ("path"@, Json::Str(path.path@)),
            ("present"@, Json::Int(path.present as int)),
            ("occurrences"@, Json::Int(path.occurrences as int)),
            ("rate"@, Json::Float(rate)),
            ("types"@, types_value(path.types@)),
        ],
    )
}

/// The schema: how many records there were and how many lines were none, and every
/// path that is listed.
pub open spec fn schema_value(schema: Schema, paths: Seq<&PathStats>, rates: Seq<String>) -> Json {
    Json::Object(
        seq![
            ("records"@, Json::Int(schema.records as int)),
            ("unparseable"@, Json::Int(schema.unparseable as int)),
            ("paths_capped"@, Json::Bool(schema.paths_capped)),
            (
                "paths"@,
                Json::Array(
                    Seq::new(paths.len(), |i: int| path_value(*paths[i], rates[i]@)),
                ),
            ),
        ],
    )
}

/// No character of a text needs an escape.
spec fn plain(s: Seq<char>) -> bool {
    forall|k: int| 0 <= k < s.len() ==> #[trigger] s[k] as u32 >= 0x20 && s[k] != '"' && s[k] != '\\'
}

proof fn lemma_plain(s: Seq<char>)
    requires
        plain(s),
    ensures
        escapes(s) == s,
    decreases s.len(),
{
    if s.len() > 0 {
        let head = s.drop_last();
        assert forall|k: int| 0 <= k < head.len() implies #[trigger] head[k] as u32 >= 0x20
            && head[k] != '"' && head[k] != '\\' by {
            assert(head[k] == s[k]);
        }
        lemma_plain(head);
        assert(s[s.len() - 1] == s.last());
        assert(escapes(s) =~= s);
    } else {
        assert(escapes(s) =~= s);
    }
}

/// The encoding of an object that goes on.
spec fn opened(members: Seq<(Seq<char>, Json)>) -> Seq<char> {
    seq!['{'] + members_encoding(members)
}

proof fn lemma_opened(members: Seq<(Seq<char>, Json)>)
    ensures
        encoding(Json::Object(members)) == opened(members) + seq!['}'],
{
}

proof fn lemma_first_member(lead: Seq<char>, key: Seq<char>, value: Json, text: Seq<char>)
    requires
        plain(key),
        lead == seq!['{', '"'] + key + seq!['"', ':'],
        text == encoding(value),
    ensures
        opened(seq![(key, value)]) == lead + text,
{
    lemma_plain(key);
    assert(opened(seq![(key, value)]) =~= lead + text);
}

proof fn lemma_next_member(
    before: Seq<char>,
    members: Seq<(Seq<char>, Json)>,
    lead: Seq<char>,
    key: Seq<char>,
    value: Json,
    text: Seq<char>,
)
    requires
        members.len() > 0,
        opened(members) == before,
        plain(key),
        lead == seq![',', '"'] + key + seq!['"', ':'],
        text == encoding(value),
    ensures
        opened(members.push((key, value))) == before + lead + text,
{
    lemma_plain(key);
    assert(members.push((key, value)).drop_last() =~= members);
    assert(opened(members.push((key, value))) =~= before + lead + text);
}

proof fn lemma_next_array(
    before: Seq<char>,
    members: Seq<(Seq<char>, Json)>,
    lead: Seq<char>,
    key: Seq<char>,
    items: Seq<Json>,
    text: Seq<char>,
)
    requires
        members.len() > 0,
        opened(members) == before,
        plain(key),
        lead == seq![',', '"'] + key + seq!['"', ':', '['],
        text == items_encoding(items),
    ensures
        opened(members.push((key, Json::Array(items)))) == before + lead + text + seq![']'],
{
    lemma_plain(key);
    assert(members.push((key, Json::Array(items))).drop_last() =~= members);
    let whole = seq!['['] + text + seq![']'];
    assert(encoding(Json::Array(items)) == whole);
    assert(opened(members.push((key, Json::Array(items)))) =~= opened(members) + seq![',']
        + quoted(key) + seq![':'] + whole);
    assert(before + seq![','] + quoted(key) + seq![':'] + whole =~= before + lead + text + seq![
        ']',
    ]);
}

proof fn lemma_joined_items(parts: Seq<Seq<char>>, items: Seq<Json>)
    requires
        parts.len() == items.len(),
        forall|i: int| 0 <= i < parts.len() ==> #[trigger] parts[i] == encoding(items[i]),
    ensures
        joined(parts, ","@) == items_encoding(items),
    decreases parts.len(),
{
    reveal_strlit(",");
    if parts.len() > 1 {
        assert forall|i: int| 0 <= i < parts.drop_last().len() implies #[trigger] parts.drop_last()[i]
            == encoding(items.drop_last()[i]) by {
            assert(parts[i] == encoding(items[i]));
        }
        lemma_joined_items(parts.drop_last(), items.drop_last());
        assert(parts[parts.len() - 1] == encoding(items[items.len() - 1]));
        assert(joined(parts, ","@) =~= items_encoding(items));
    } else if parts.len() == 1 {
        assert(parts[0] == encoding(items[0]));
    }
}

proof fn lemma_kind_names_are_plain(kind: Kind)
    ensures
        plain(kind_name(kind)),
{
    reveal_strlit("null");
    reveal_strlit("bool");
    reveal_strlit("int");
    reveal_strlit("float");
    reveal_strlit("string");
    reveal_strlit("array");
    reveal_strlit("object");
}

proof fn lemma_type_members(types: Seq<(Kind, nat)>)
    ensures
        joined(types.map_values(|p: (Kind, nat)| type_as_json(p)), ","@) == members_encoding(
            types.map_values(|pair: (Kind, nat)| (kind_name(pair.0), Json::Int(pair.1 as int))),
        ),
    decreases types.len(),
{
    let f = |p: (Kind, nat)| type_as_json(p);
    let g = |pair: (Kind, nat)| (kind_name(pair.0), Json::Int(pair.1 as int));
    reveal_strlit(",");
    reveal_strlit("\"");
    reveal_strlit("\":");
    if types.len() > 0 {
        let head = types.drop_last();
        let last = types.last();
        lemma_type_members(head);
        lemma_kind_names_are_plain(last.0);
        lemma_plain(kind_name(last.0));
        assert(types.map_values(f).drop_last() =~= head.map_values(f));
        assert(types.map_values(g).drop_last() =~= head.map_values(g));
        assert(types.map_values(f).last() == type_as_json(last));
        assert(types.map_values(g).last() == g(last));
        assert(type_as_json(last) =~= quoted(kind_name(last.0)) + seq![':'] + encoding(
            Json::Int(last.1 as int),
        ));
        if types.len() == 1 {
            assert(types.map_values(f)[0] == type_as_json(last));
            assert(types.map_values(g)[0] == g(last));
        }
        assert(joined(types.map_values(f), ","@) =~= members_encoding(types.map_values(g)));
    } else {
        assert(joined(types.map_values(f), ","@) =~= members_encoding(types.map_values(g)));
    }
}

proof fn lemma_types(types: Seq<(Kind, nat)>)
    ensures
        types_as_json(types) == encoding(types_value(types)),
{
    lemma_type_members(types);
    reveal_strlit("{");
    reveal_strlit("}");
    assert(types_as_json(types) =~= encoding(types_value(types)));
}

proof fn lemma_figure(n: Option<u64>)
    ensures
        number_or_null(n) == encoding(figure(n)),
{
    reveal_strlit("null");
    assert(number_or_null(n) =~= encoding(figure(n)));
}

proof fn lemma_fraction(s: Option<String>)
    ensures
        text_or(s, "null"@) == encoding(fraction(s)),
{
    reveal_strlit("null");
    assert(text_or(s, "null"@) =~= encoding(fraction(s)));
}

proof fn lemma_truth(b: bool)
    ensures
        truth(b) == encoding(Json::Bool(b)),
{
    reveal_strlit("true");
    reveal_strlit("false");
    assert(truth(b) =~= encoding(Json::Bool(b)));
}

#[verifier::spinoff_prover]
proof fn lemma_lengths(l: Lengths)
    ensures
        lengths_as_json(l) == encoding(lengths_value(l)),
{
    reveal_strlit("count");
    reveal_strlit("{\"count\":");
    assert("{\"count\":"@ =~= seq!['{', '"'] + "count"@ + seq!['"', ':']);
    let m0 = seq![("count"@, Json::Int(l.count as int))];
    let t0 = "{\"count\":"@ + decimal(l.count as nat);
    lemma_first_member(
        "{\"count\":"@,
        "count"@,
        Json::Int(l.count as int),
        decimal(l.count as nat),
    );
    lemma_figure(l.min);
    reveal_strlit("min");
    reveal_strlit(",\"min\":");
    assert(",\"min\":"@ =~= seq![',', '"'] + "min"@ + seq!['"', ':']);
    let m1 = m0.push(("min"@, figure(l.min)));
    let t1 = t0 + ",\"min\":"@ + number_or_null(l.min);
    lemma_next_member(t0, m0, ",\"min\":"@, "min"@, figure(l.min), number_or_null(l.min));
    lemma_figure(l.p50);
    reveal_strlit("p50");
    reveal_strlit(",\"p50\":");
    assert(",\"p50\":"@ =~= seq![',', '"'] + "p50"@ + seq!['"', ':']);
    let m2 = m1.push(("p50"@, figure(l.p50)));
    let t2 = t1 + ",\"p50\":"@ + number_or_null(l.p50);
    lemma_next_member(t1, m1, ",\"p50\":"@, "p50"@, figure(l.p50), number_or_null(l.p50));
    lemma_figure(l.p90);
    reveal_strlit("p90");
    reveal_strlit(",\"p90\":");
    assert(",\"p90\":"@ =~= seq![',', '"'] + "p90"@ + seq!['"', ':']);
    let m3 = m2.push(("p90"@, figure(l.p90)));
    let t3 = t2 + ",\"p90\":"@ + number_or_null(l.p90);
    lemma_next_member(t2, m2, ",\"p90\":"@, "p90"@, figure(l.p90), number_or_null(l.p90));
    lemma_figure(l.p99);
    reveal_strlit("p99");
    reveal_strlit(",\"p99\":");
    assert(",\"p99\":"@ =~= seq![',', '"'] + "p99"@ + seq!['"', ':']);
    let m4 = m3.push(("p99"@, figure(l.p99)));
    let t4 = t3 + ",\"p99\":"@ + number_or_null(l.p99);
    lemma_next_member(t3, m3, ",\"p99\":"@, "p99"@, figure(l.p99), number_or_null(l.p99));
    lemma_figure(l.max);
    reveal_strlit("max");
    reveal_strlit(",\"max\":");
    assert(",\"max\":"@ =~= seq![',', '"'] + "max"@ + seq!['"', ':']);
    let m5 = m4.push(("max"@, figure(l.max)));
    let t5 = t4 + ",\"max\":"@ + number_or_null(l.max);
    lemma_next_member(t4, m4, ",\"max\":"@, "max"@, figure(l.max), number_or_null(l.max));
    lemma_fraction(l.mean);
    reveal_strlit("mean");
    reveal_strlit(",\"mean\":");
    assert(",\"mean\":"@ =~= seq![',', '"'] + "mean"@ + seq!['"', ':']);
    let m6 = m5.push(("mean"@, fraction(l.mean)));
    let t6 = t5 + ",\"mean\":"@ + text_or(l.mean, "null"@);
    lemma_next_member(t5, m5, ",\"mean\":"@, "mean"@, fraction(l.mean), text_or(l.mean, "null"@));
    reveal_strlit("}");
    lemma_opened(m6);
    assert(lengths_as_json(l) =~= t6 + seq!['}']);
    assert(lengths_value(l)->Object_0 =~= m6);
    assert(lengths_value(l) == Json::Object(m6));
}

proof fn lemma_frequent(entry: (String, u64), value: Json)
    requires
        encoding(value) == entry.0@,
    ensures
        value_as_json(entry) == encoding(frequent_value(value, entry.1)),
{
    reveal_strlit("value");
    reveal_strlit("{\"value\":");
    assert("{\"value\":"@ =~= seq!['{', '"'] + "value"@ + seq!['"', ':']);
    let m0 = seq![("value"@, value)];
    let t0 = "{\"value\":"@ + entry.0@;
    lemma_first_member("{\"value\":"@, "value"@, value, entry.0@);
    reveal_strlit("count");
    reveal_strlit(",\"count\":");
    assert(",\"count\":"@ =~= seq![',', '"'] + "count"@ + seq!['"', ':']);
    let m1 = m0.push(("count"@, Json::Int(entry.1 as int)));
    let t1 = t0 + ",\"count\":"@ + decimal(entry.1 as nat);
    lemma_next_member(
        t0,
        m0,
        ",\"count\":"@,
        "count"@,
        Json::Int(entry.1 as int),
        decimal(entry.1 as nat),
    );
    reveal_strlit("}");
    lemma_opened(m1);
    assert(value_as_json(entry) =~= t1 + seq!['}']);
    assert(frequent_value(value, entry.1)->Object_0 =~= m1);
    assert(frequent_value(value, entry.1) == Json::Object(m1));
}

proof fn lemma_key(key: KeyStats)
    ensures
        key_as_json(key) == encoding(key_value(key)),
{
    reveal_strlit("key");
    reveal_strlit("{\"key\":");
    assert("{\"key\":"@ =~= seq!['{', '"'] + "key"@ + seq!['"', ':']);
    let m0 = seq![("key"@, Json::Str(key.key@))];
    let t0 = "{\"key\":"@ + quoted(key.key@);
    lemma_first_member("{\"key\":"@, "key"@, Json::Str(key.key@), quoted(key.key@));
    reveal_strlit("count");
    reveal_strlit(",\"count\":");
    assert(",\"count\":"@ =~= seq![',', '"'] + "count"@ + seq!['"', ':']);
    let m1 = m0.push(("count"@, Json::Int(key.count as int)));
    let t1 = t0 + ",\"count\":"@ + decimal(key.count as nat);
    lemma_next_member(
        t0,
        m0,
        ",\"count\":"@,
        "count"@,
        Json::Int(key.count as int),
        decimal(key.count as nat),
    );
    lemma_types(key.types@);
    reveal_strlit("types");
    reveal_strlit(",\"types\":");
    assert(",\"types\":"@ =~= seq![',', '"'] + "types"@ + seq!['"', ':']);
    let m2 = m1.push(("types"@, types_value(key.types@)));
    let t2 = t1 + ",\"types\":"@ + types_as_json(key.types@);
    lemma_next_member(
        t1,
        m1,
        ",\"types\":"@,
        "types"@,
        types_value(key.types@),
        types_as_json(key.types@),
    );
    reveal_strlit("}");
    lemma_opened(m2);
    assert(key_as_json(key) =~= t2 + seq!['}']);
    assert(key_value(key)->Object_0 =~= m2);
    assert(key_value(key) == Json::Object(m2));
}

proof fn lemma_issue(issue: Issue)
    ensures
        issue_as_json(issue) == encoding(issue_value(issue)),
{
    reveal_strlit("line");
    reveal_strlit("{\"line\":");
    assert("{\"line\":"@ =~= seq!['{', '"'] + "line"@ + seq!['"', ':']);
    let m0 = seq![("line"@, Json::Int(issue.line as int))];
    let t0 = "{\"line\":"@ + decimal(issue.line as nat);
    lemma_first_member(
        "{\"line\":"@,
        "line"@,
        Json::Int(issue.line as int),
        decimal(issue.line as nat),
    );
    reveal_strlit("column");
    reveal_strlit(",\"column\":");
    assert(",\"column\":"@ =~= seq![',', '"'] + "column"@ + seq!['"', ':']);
    let m1 = m0.push(("column"@, Json::Int(issue.column as int)));
    let t1 = t0 + ",\"column\":"@ + decimal(issue.column as nat);
    lemma_next_member(
        t0,
        m0,
        ",\"column\":"@,
        "column"@,
        Json::Int(issue.column as int),
        decimal(issue.column as nat),
    );
    reveal_strlit("reason");
    reveal_strlit(",\"reason\":");
    assert(",\"reason\":"@ =~= seq![',', '"'] + "reason"@ + seq!['"', ':']);
    let m2 = m1.push(("reason"@, Json::Str(issue.reason@)));
    let t2 = t1 + ",\"reason\":"@ + quoted(issue.reason@);
    lemma_next_member(
        t1,
        m1,
        ",\"reason\":"@,
        "reason"@,
        Json::Str(issue.reason@),
        quoted(issue.reason@),
    );
    reveal_strlit("}");
    lemma_opened(m2);
    assert(issue_as_json(issue) =~= t2 + seq!['}']);
    assert(issue_value(issue)->Object_0 =~= m2);
    assert(issue_value(issue) == Json::Object(m2));
}

proof fn lemma_path(path: PathStats, rate: Seq<char>)
    ensures
        path_as_json(path, rate) == encoding(path_value(path, rate)),
{
    reveal_strlit("path");
    reveal_strlit("{\"path\":");
    assert("{\"path\":"@ =~= seq!['{', '"'] + "path"@ + seq!['"', ':']);
    let m0 = seq![("path"@, Json::Str(path.path@))];
    let t0 = "{\"path\":"@ + quoted(path.path@);
    lemma_first_member("{\"path\":"@, "path"@, Json::Str(path.path@), quoted(path.path@));
    reveal_strlit("present");
    reveal_strlit(",\"present\":");
    assert(",\"present\":"@ =~= seq![',', '"'] + "present"@ + seq!['"', ':']);
    let m1 = m0.push(("present"@, Json::Int(path.present as int)));
    let t1 = t0 + ",\"present\":"@ + decimal(path.present as nat);
    lemma_next_member(
        t0,
        m0,
        ",\"present\":"@,
        "present"@,
        Json::Int(path.present as int),
        decimal(path.present as nat),
    );
    reveal_strlit("occurrences");
    reveal_strlit(",\"occurrences\":");
    assert(",\"occurrences\":"@ =~= seq![',', '"'] + "occurrences"@ + seq!['"', ':']);
    let m2 = m1.push(("occurrences"@, Json::Int(path.occurrences as int)));
    let t2 = t1 + ",\"occurrences\":"@ + decimal(path.occurrences as nat);
    lemma_next_member(
        t1,
        m1,
        ",\"occurrences\":"@,
        "occurrences"@,
        Json::Int(path.occurrences as int),
        decimal(path.occurrences as nat),
    );
    reveal_strlit("rate");
    reveal_strlit(",\"rate\":");
    assert(",\"rate\":"@ =~= seq![',', '"'] + "rate"@ + seq!['"', ':']);
    let m3 = m2.push(("rate"@, Json::Float(rate)));
    let t3 = t2 + ",\"rate\":"@ + rate;
    lemma_next_member(t2, m2, ",\"rate\":"@, "rate"@, Json::Float(rate), rate);
    lemma_types(path.types@);
    reveal_strlit("types");
    reveal_strlit(",\"types\":");
    assert(",\"types\":"@ =~= seq![',', '"'] + "types"@ + seq!['"', ':']);
    let m4 = m3.push(("types"@, types_value(path.types@)));
    let t4 = t3 + ",\"types\":"@ + types_as_json(path.types@);
    lemma_next_member(
        t3,
        m3,
        ",\"types\":"@,
        "types"@,
        types_value(path.types@),
        types_as_json(path.types@),
    );
    reveal_strlit("}");
    lemma_opened(m4);
    assert(path_as_json(path, rate) =~= t4 + seq!['}']);
    assert(path_value(path, rate)->Object_0 =~= m4);
    assert(path_value(path, rate) == Json::Object(m4));
}

#[verifier::spinoff_prover]
proof fn lemma_field(field: FieldStats, top: Seq<(String, u64)>, values: Seq<Json>)
    requires
        values.len() == top.len(),
        forall|i: int| 0 <= i < top.len() ==> encoding(values[i]) == (#[trigger] top[i]).0@,
    ensures
        field_as_json(field, top) == encoding(field_value(field, top, values)),
{
    let items = Seq::new(top.len(), |i: int| frequent_value(values[i], top[i].1));
    let parts = top.map_values(|e: (String, u64)| value_as_json(e));
    assert forall|i: int| 0 <= i < parts.len() implies #[trigger] parts[i] == encoding(items[i]) by {
        assert(encoding(values[i]) == top[i].0@);
        lemma_frequent(top[i], values[i]);
    }
    lemma_joined_items(parts, items);
    reveal_strlit("path");
    reveal_strlit("{\"path\":");
    assert("{\"path\":"@ =~= seq!['{', '"'] + "path"@ + seq!['"', ':']);
    let m0 = seq![("path"@, Json::Str(field.path.text()))];
    let t0 = "{\"path\":"@ + quoted(field.path.text());
    lemma_first_member(
        "{\"path\":"@,
        "path"@,
        Json::Str(field.path.text()),
        quoted(field.path.text()),
    );
    reveal_strlit("present");
    reveal_strlit(",\"present\":");
    assert(",\"present\":"@ =~= seq![',', '"'] + "present"@ + seq!['"', ':']);
    let m1 = m0.push(("present"@, Json::Int(field.present as int)));
    let t1 = t0 + ",\"present\":"@ + decimal(field.present as nat);
    lemma_next_member(
        t0,
        m0,
        ",\"present\":"@,
        "present"@,
        Json::Int(field.present as int),
        decimal(field.present as nat),
    );
    reveal_strlit("values");
    reveal_strlit(",\"values\":");
    assert(",\"values\":"@ =~= seq![',', '"'] + "values"@ + seq!['"', ':']);
    let m2 = m1.push(("values"@, Json::Int(field.values as int)));
    let t2 = t1 + ",\"values\":"@ + decimal(field.values as nat);
    lemma_next_member(
        t1,
        m1,
        ",\"values\":"@,
        "values"@,
        Json::Int(field.values as int),
        decimal(field.values as nat),
    );
    reveal_strlit("distinct");
    reveal_strlit(",\"distinct\":");
    assert(",\"distinct\":"@ =~= seq![',', '"'] + "distinct"@ + seq!['"', ':']);
    let m3 = m2.push(("distinct"@, Json::Int(field.value_counts.names().len() as int)));
    let t3 = t2 + ",\"distinct\":"@ + decimal(field.value_counts.names().len());
    lemma_next_member(
        t2,
        m2,
        ",\"distinct\":"@,
        "distinct"@,
        Json::Int(field.value_counts.names().len() as int),
        decimal(field.value_counts.names().len()),
    );
    lemma_truth(field.values_capped);
    reveal_strlit("values_capped");
    reveal_strlit(",\"values_capped\":");
    assert(",\"values_capped\":"@ =~= seq![',', '"'] + "values_capped"@ + seq!['"', ':']);
    let m4 = m3.push(("values_capped"@, Json::Bool(field.values_capped)));
    let t4 = t3 + ",\"values_capped\":"@ + truth(field.values_capped);
    lemma_next_member(
        t3,
        m3,
        ",\"values_capped\":"@,
        "values_capped"@,
        Json::Bool(field.values_capped),
        truth(field.values_capped),
    );
    lemma_types(field.types@);
    reveal_strlit("types");
    reveal_strlit(",\"types\":");
    assert(",\"types\":"@ =~= seq![',', '"'] + "types"@ + seq!['"', ':']);
    let m5 = m4.push(("types"@, types_value(field.types@)));
    let t5 = t4 + ",\"types\":"@ + types_as_json(field.types@);
    lemma_next_member(
        t4,
        m4,
        ",\"types\":"@,
        "types"@,
        types_value(field.types@),
        types_as_json(field.types@),
    );
    reveal_strlit("top");
    reveal_strlit(",\"top\":[");
    assert(",\"top\":["@ =~= seq![',', '"'] + "top"@ + seq!['"', ':', '[']);
    let m6 = m5.push(("top"@, Json::Array(items)));
    let t6 = t5 + ",\"top\":["@ + values_as_json(top) + seq![']'];
    lemma_next_array(t5, m5, ",\"top\":["@, "top"@, items, values_as_json(top));
    reveal_strlit("]}");
    lemma_opened(m6);
    assert(field_as_json(field, top) =~= t6 + seq!['}']);
    assert(field_value(field, top, values)->Object_0 =~= m6);
    assert(field_value(field, top, values) == Json::Object(m6));
}

/// The report of a schema is the encoding of one value: an object that names every
/// figure and holds every path that is listed.
#[verifier::spinoff_prover]
pub proof fn law_the_schema_report_is_a_value(
    schema: Schema,
    paths: Seq<&PathStats>,
    rates: Seq<String>,
)
    requires
        paths.len() == rates.len(),
    ensures
        schema_as_json(schema, paths, rates) == encoding(schema_value(schema, paths, rates)),
{
    let items = Seq::new(paths.len(), |i: int| path_value(*paths[i], rates[i]@));
    let parts = Seq::new(paths.len(), |i: int| path_as_json(*paths[i], rates[i]@));
    assert forall|i: int| 0 <= i < parts.len() implies #[trigger] parts[i] == encoding(items[i]) by {
        lemma_path(*paths[i], rates[i]@);
    }
    lemma_joined_items(parts, items);
    reveal_strlit("records");
    reveal_strlit("{\"records\":");
    assert("{\"records\":"@ =~= seq!['{', '"'] + "records"@ + seq!['"', ':']);
    let m0 = seq![("records"@, Json::Int(schema.records as int))];
    let t0 = "{\"records\":"@ + decimal(schema.records as nat);
    lemma_first_member(
        "{\"records\":"@,
        "records"@,
        Json::Int(schema.records as int),
        decimal(schema.records as nat),
    );
    reveal_strlit("unparseable");
    reveal_strlit(",\"unparseable\":");
    assert(",\"unparseable\":"@ =~= seq![',', '"'] + "unparseable"@ + seq!['"', ':']);
    let m1 = m0.push(("unparseable"@, Json::Int(schema.unparseable as int)));
    let t1 = t0 + ",\"unparseable\":"@ + decimal(schema.unparseable as nat);
    lemma_next_member(
        t0,
        m0,
        ",\"unparseable\":"@,
        "unparseable"@,
        Json::Int(schema.unparseable as int),
        decimal(schema.unparseable as nat),
    );
    lemma_truth(schema.paths_capped);
    reveal_strlit("paths_capped");
    reveal_strlit(",\"paths_capped\":");
    assert(",\"paths_capped\":"@ =~= seq![',', '"'] + "paths_capped"@ + seq!['"', ':']);
    let m2 = m1.push(("paths_capped"@, Json::Bool(schema.paths_capped)));
    let t2 = t1 + ",\"paths_capped\":"@ + truth(schema.paths_capped);
    lemma_next_member(
        t1,
        m1,
        ",\"paths_capped\":"@,
        "paths_capped"@,
        Json::Bool(schema.paths_capped),
        truth(schema.paths_capped),
    );
    reveal_strlit("paths");
    reveal_strlit(",\"paths\":[");
    assert(",\"paths\":["@ =~= seq![',', '"'] + "paths"@ + seq!['"', ':', '[']);
    let m3 = m2.push(("paths"@, Json::Array(items)));
    let t3 = t2 + ",\"paths\":["@ + joined(parts, ","@) + seq![']'];
    lemma_next_array(t2, m2, ",\"paths\":["@, "paths"@, items, joined(parts, ","@));
    reveal_strlit("]}");
    lemma_opened(m3);
    assert(schema_as_json(schema, paths, rates) =~= t3 + seq!['}']);
    assert(schema_value(schema, paths, rates)->Object_0 =~= m3);
    assert(schema_value(schema, paths, rates) == Json::Object(m3));
}

/// The first members of the statistics.
spec fn counts_members(stats: Stats) -> Seq<(Seq<char>, Json)> {
    seq![
        ("lines"@, Json::Int(stats.lines as int)),
        ("blank"@, Json::Int(stats.blank as int)),
        ("valid"@, Json::Int(stats.valid as int)),
        ("invalid"@, Json::Int(stats.lines - stats.blank - stats.valid)),
        ("bytes"@, Json::Int(stats.bytes as int)),
    ]
}

#[verifier::spinoff_prover]
proof fn lemma_line_counts(stats: Stats)
    requires
        stats.blank + stats.valid <= stats.lines,
    ensures
        line_counts_as_json(stats) == opened(counts_members(stats)),
{
    reveal_strlit("lines");
    reveal_strlit("{\"lines\":");
    assert("{\"lines\":"@ =~= seq!['{', '"'] + "lines"@ + seq!['"', ':']);
    let m0 = seq![("lines"@, Json::Int(stats.lines as int))];
    let t0 = "{\"lines\":"@ + decimal(stats.lines as nat);
    lemma_first_member(
        "{\"lines\":"@,
        "lines"@,
        Json::Int(stats.lines as int),
        decimal(stats.lines as nat),
    );
    reveal_strlit("blank");
    reveal_strlit(",\"blank\":");
    assert(",\"blank\":"@ =~= seq![',', '"'] + "blank"@ + seq!['"', ':']);
    let m1 = m0.push(("blank"@, Json::Int(stats.blank as int)));
    let t1 = t0 + ",\"blank\":"@ + decimal(stats.blank as nat);
    lemma_next_member(
        t0,
        m0,
        ",\"blank\":"@,
        "blank"@,
        Json::Int(stats.blank as int),
        decimal(stats.blank as nat),
    );
    reveal_strlit("valid");
    reveal_strlit(",\"valid\":");
    assert(",\"valid\":"@ =~= seq![',', '"'] + "valid"@ + seq!['"', ':']);
    let m2 = m1.push(("valid"@, Json::Int(stats.valid as int)));
    let t2 = t1 + ",\"valid\":"@ + decimal(stats.valid as nat);
    lemma_next_member(
        t1,
        m1,
        ",\"valid\":"@,
        "valid"@,
        Json::Int(stats.valid as int),
        decimal(stats.valid as nat),
    );
    reveal_strlit("invalid");
    reveal_strlit(",\"invalid\":");
    assert(",\"invalid\":"@ =~= seq![',', '"'] + "invalid"@ + seq!['"', ':']);
    let m3 = m2.push(("invalid"@, Json::Int(stats.lines - stats.blank - stats.valid)));
    let t3 = t2 + ",\"invalid\":"@ + decimal((stats.lines - stats.blank - stats.valid) as nat);
    lemma_next_member(
        t2,
        m2,
        ",\"invalid\":"@,
        "invalid"@,
        Json::Int(stats.lines - stats.blank - stats.valid),
        decimal((stats.lines - stats.blank - stats.valid) as nat),
    );
    reveal_strlit("bytes");
    reveal_strlit(",\"bytes\":");
    assert(",\"bytes\":"@ =~= seq![',', '"'] + "bytes"@ + seq!['"', ':']);
    let m4 = m3.push(("bytes"@, Json::Int(stats.bytes as int)));
    let t4 = t3 + ",\"bytes\":"@ + decimal(stats.bytes as nat);
    lemma_next_member(
        t3,
        m3,
        ",\"bytes\":"@,
        "bytes"@,
        Json::Int(stats.bytes as int),
        decimal(stats.bytes as nat),
    );
    assert(counts_members(stats) =~= m4);
    assert(line_counts_as_json(stats) =~= t4);
}

/// Each listed text is the encoding of a value.
pub open spec fn encodes(values: Seq<Seq<Json>>, tops: Seq<Vec<(String, u64)>>) -> bool {
    &&& values.len() == tops.len()
    &&& forall|i: int| 0 <= i < tops.len() ==> encodes_all(#[trigger] values[i], tops[i]@)
}

/// Each text of a listing is the encoding of a value.
pub open spec fn encodes_all(values: Seq<Json>, top: Seq<(String, u64)>) -> bool {
    &&& values.len() == top.len()
    &&& forall|k: int| 0 <= k < top.len() ==> encoding(values[k]) == (#[trigger] top[k]).0@
}

/// The keys, as the items of an array.
spec fn key_values(keys: Seq<&KeyStats>) -> Seq<Json> {
    keys.map_values(|key: &KeyStats| key_value(*key))
}

/// The issues, as the items of an array.
spec fn issue_values(issues: Seq<Issue>) -> Seq<Json> {
    issues.map_values(|issue: Issue| issue_value(issue))
}

/// The fields, as the items of an array.
spec fn field_values_of(
    fields: Seq<FieldStats>,
    tops: Seq<Vec<(String, u64)>>,
    values: Seq<Seq<Json>>,
) -> Seq<Json> {
    Seq::new(fields.len(), |i: int| field_value(fields[i], tops[i]@, values[i]))
}

proof fn lemma_key_items(keys: Seq<&KeyStats>)
    ensures
        joined(keys.map_values(|k: &KeyStats| key_as_json(*k)), ","@) == items_encoding(
            key_values(keys),
        ),
{
    let items = key_values(keys);
    let parts = keys.map_values(|k: &KeyStats| key_as_json(*k));
    assert forall|i: int| 0 <= i < parts.len() implies #[trigger] parts[i] == encoding(items[i]) by {
        lemma_key(*keys[i]);
    }
    lemma_joined_items(parts, items);
}

proof fn lemma_issue_items(issues: Seq<Issue>)
    ensures
        joined(issues.map_values(|i: Issue| issue_as_json(i)), ","@) == items_encoding(
            issue_values(issues),
        ),
{
    let items = issue_values(issues);
    let parts = issues.map_values(|i: Issue| issue_as_json(i));
    assert forall|i: int| 0 <= i < parts.len() implies #[trigger] parts[i] == encoding(items[i]) by {
        lemma_issue(issues[i]);
    }
    lemma_joined_items(parts, items);
}

proof fn lemma_field_items(
    fields: Seq<FieldStats>,
    tops: Seq<Vec<(String, u64)>>,
    values: Seq<Seq<Json>>,
)
    requires
        tops.len() == fields.len(),
        encodes(values, tops),
    ensures
        fields_as_json(fields, tops) == items_encoding(field_values_of(fields, tops, values)),
{
    let items = field_values_of(fields, tops, values);
    let parts = Seq::new(fields.len(), |i: int| field_as_json(fields[i], tops[i]@));
    assert forall|i: int| 0 <= i < parts.len() implies #[trigger] parts[i] == encoding(items[i]) by {
        assert(encodes_all(values[i], tops[i]@));
        lemma_field(fields[i], tops[i]@, values[i]);
    }
    lemma_joined_items(parts, items);
}

/// How the members of the statistics start.
proof fn lemma_leads()
    ensures
        plain("top_level_types"@),
        ",\"top_level_types\":"@ == seq![',', '"'] + "top_level_types"@ + seq!['"', ':'],
        plain("line_length"@),
        ",\"line_length\":"@ == seq![',', '"'] + "line_length"@ + seq!['"', ':'],
        plain("keys_capped"@),
        ",\"keys_capped\":"@ == seq![',', '"'] + "keys_capped"@ + seq!['"', ':'],
        plain("keys"@),
        ",\"keys\":["@ == seq![',', '"'] + "keys"@ + seq!['"', ':', '['],
        plain("issues_truncated"@),
        ",\"issues_truncated\":"@ == seq![',', '"'] + "issues_truncated"@ + seq!['"', ':'],
        plain("issues"@),
        ",\"issues\":["@ == seq![',', '"'] + "issues"@ + seq!['"', ':', '['],
        plain("fields"@),
        ",\"fields\":["@ == seq![',', '"'] + "fields"@ + seq!['"', ':', '['],
        "],\"issues_truncated\":"@ == seq![']'] + ",\"issues_truncated\":"@,
        "],\"fields\":["@ == seq![']'] + ",\"fields\":["@,
        "]}"@ == seq![']'] + seq!['}'],
{
    reveal_strlit("top_level_types");
    reveal_strlit(",\"top_level_types\":");
    assert(",\"top_level_types\":"@ =~= seq![',', '"'] + "top_level_types"@ + seq!['"', ':']);
    reveal_strlit("line_length");
    reveal_strlit(",\"line_length\":");
    assert(",\"line_length\":"@ =~= seq![',', '"'] + "line_length"@ + seq!['"', ':']);
    reveal_strlit("keys_capped");
    reveal_strlit(",\"keys_capped\":");
    assert(",\"keys_capped\":"@ =~= seq![',', '"'] + "keys_capped"@ + seq!['"', ':']);
    reveal_strlit("keys");
    reveal_strlit(",\"keys\":[");
    assert(",\"keys\":["@ =~= seq![',', '"'] + "keys"@ + seq!['"', ':', '[']);
    reveal_strlit("issues_truncated");
    reveal_strlit(",\"issues_truncated\":");
    assert(",\"issues_truncated\":"@ =~= seq![',', '"'] + "issues_truncated"@ + seq!['"', ':']);
    reveal_strlit("issues");
    reveal_strlit(",\"issues\":[");
    assert(",\"issues\":["@ =~= seq![',', '"'] + "issues"@ + seq!['"', ':', '[']);
    reveal_strlit("fields");
    reveal_strlit(",\"fields\":[");
    assert(",\"fields\":["@ =~= seq![',', '"'] + "fields"@ + seq!['"', ':', '[']);
    reveal_strlit("],\"issues_truncated\":");
    reveal_strlit("],\"fields\":[");
    reveal_strlit("]}");
    assert("],\"issues_truncated\":"@ =~= seq![']'] + ",\"issues_truncated\":"@);
    assert("],\"fields\":["@ =~= seq![']'] + ",\"fields\":["@);
    assert("]}"@ =~= seq![']'] + seq!['}']);
}

/// A bracket that closes what comes before it.
proof fn lemma_closes(a: Seq<char>, x: Seq<char>, y: Seq<char>)
    requires
        x == seq![']'] + y,
    ensures
        a + x == a + seq![']'] + y,
{
    assert(a + x =~= a + seq![']'] + y);
}

#[verifier::spinoff_prover]
proof fn lemma_stats_members(
    stats: Stats,
    keys: Seq<&KeyStats>,
    tops: Seq<Vec<(String, u64)>>,
    values: Seq<Seq<Json>>,
    lengths: Lengths,
)
    ensures
        stats_value(stats, keys, tops, values, lengths) == Json::Object(
            counts_members(stats).push(
            ("top_level_types"@, types_value(stats.top_level_types@)),
        ).push(
            ("line_length"@, lengths_value(lengths)),
        ).push(
            ("keys_capped"@, Json::Bool(stats.keys_capped)),
        ).push(
            ("keys"@, Json::Array(key_values(keys))),
        ).push(
            ("issues_truncated"@, Json::Int(stats.issues_truncated as int)),
        ).push(
            ("issues"@, Json::Array(issue_values(stats.issues@))),
        ).push(
            ("fields"@, Json::Array(field_values_of(stats.fields@, tops, values))),
        ),
        ),
{
    let m = counts_members(stats).push(
            ("top_level_types"@, types_value(stats.top_level_types@)),
        ).push(
            ("line_length"@, lengths_value(lengths)),
        ).push(
            ("keys_capped"@, Json::Bool(stats.keys_capped)),
        ).push(
            ("keys"@, Json::Array(key_values(keys))),
        ).push(
            ("issues_truncated"@, Json::Int(stats.issues_truncated as int)),
        ).push(
            ("issues"@, Json::Array(issue_values(stats.issues@))),
        ).push(
            ("fields"@, Json::Array(field_values_of(stats.fields@, tops, values))),
        );
    let fields = stats.fields@;
    assert(field_values_of(fields, tops, values) =~= Seq::new(
        stats.fields@.len(),
        |i: int| field_value(stats.fields@[i], tops[i]@, values[i]),
    ));
    assert(stats_value(stats, keys, tops, values, lengths)->Object_0 =~= m);
}

/// The report of the statistics is the encoding of one value: an object that names
/// every figure and holds every key and every field that is listed and every issue
/// that was kept.
#[verifier::spinoff_prover]
pub proof fn law_the_statistics_report_is_a_value(
    stats: Stats,
    keys: Seq<&KeyStats>,
    tops: Seq<Vec<(String, u64)>>,
    values: Seq<Seq<Json>>,
    lengths: Lengths,
)
    requires
        stats.blank + stats.valid <= stats.lines,
        tops.len() == stats.fields@.len(),
        encodes(values, tops),
    ensures
        stats_as_json(stats, keys, tops, lengths) == encoding(
            stats_value(stats, keys, tops, values, lengths),
        ),
{
    let key_items = key_values(keys);
    let issue_items = issue_values(stats.issues@);
    let fields = stats.fields@;
    let field_items = field_values_of(fields, tops, values);
    let key_parts = keys.map_values(|k: &KeyStats| key_as_json(*k));
    let issue_parts = stats.issues@.map_values(|i: Issue| issue_as_json(i));
    lemma_key_items(keys);
    lemma_issue_items(stats.issues@);
    lemma_field_items(fields, tops, values);
    lemma_line_counts(stats);
    lemma_leads();
    let m0 = counts_members(stats);
    let t0 = line_counts_as_json(stats);
    lemma_types(stats.top_level_types@);
    let m1 = m0.push(("top_level_types"@, types_value(stats.top_level_types@)));
    let t1 = t0 + ",\"top_level_types\":"@ + types_as_json(stats.top_level_types@);
    lemma_next_member(
        t0,
        m0,
        ",\"top_level_types\":"@,
        "top_level_types"@,
        types_value(stats.top_level_types@),
        types_as_json(stats.top_level_types@),
    );
    lemma_lengths(lengths);
    let m2 = m1.push(("line_length"@, lengths_value(lengths)));
    let t2 = t1 + ",\"line_length\":"@ + lengths_as_json(lengths);
    lemma_next_member(
        t1,
        m1,
        ",\"line_length\":"@,
        "line_length"@,
        lengths_value(lengths),
        lengths_as_json(lengths),
    );
    lemma_truth(stats.keys_capped);
    let m3 = m2.push(("keys_capped"@, Json::Bool(stats.keys_capped)));
    let t3 = t2 + ",\"keys_capped\":"@ + truth(stats.keys_capped);
    lemma_next_member(
        t2,
        m2,
        ",\"keys_capped\":"@,
        "keys_capped"@,
        Json::Bool(stats.keys_capped),
        truth(stats.keys_capped),
    );
    let m4 = m3.push(("keys"@, Json::Array(key_items)));
    let t4 = t3 + ",\"keys\":["@ + joined(key_parts, ","@) + seq![']'];
    lemma_next_array(t3, m3, ",\"keys\":["@, "keys"@, key_items, joined(key_parts, ","@));
    let m5 = m4.push(("issues_truncated"@, Json::Int(stats.issues_truncated as int)));
    let t5 = t4 + ",\"issues_truncated\":"@ + decimal(stats.issues_truncated as nat);
    lemma_next_member(
        t4,
        m4,
        ",\"issues_truncated\":"@,
        "issues_truncated"@,
        Json::Int(stats.issues_truncated as int),
        decimal(stats.issues_truncated as nat),
    );
    let m6 = m5.push(("issues"@, Json::Array(issue_items)));
    let t6 = t5 + ",\"issues\":["@ + joined(issue_parts, ","@) + seq![']'];
    lemma_next_array(t5, m5, ",\"issues\":["@, "issues"@, issue_items, joined(issue_parts, ","@));
    let m7 = m6.push(("fields"@, Json::Array(field_items)));
    let t7 = t6 + ",\"fields\":["@ + fields_as_json(stats.fields@, tops) + seq![']'];
    lemma_next_array(
        t6,
        m6,
        ",\"fields\":["@,
        "fields"@,
        field_items,
        fields_as_json(stats.fields@, tops),
    );
    let a4 = t3 + ",\"keys\":["@ + joined(key_parts, ","@);
    lemma_closes(a4, "],\"issues_truncated\":"@, ",\"issues_truncated\":"@);
    let a6 = t5 + ",\"issues\":["@ + joined(issue_parts, ","@);
    lemma_closes(a6, "],\"fields\":["@, ",\"fields\":["@);
    let a7 = t6 + ",\"fields\":["@ + fields_as_json(fields, tops);
    lemma_closes(a7, "]}"@, seq!['}']);
    lemma_opened(m7);
    assert(stats_as_json(stats, keys, tops, lengths) == a7 + "]}"@);
    lemma_stats_members(stats, keys, tops, values, lengths);
    assert(stats_value(stats, keys, tops, values, lengths) == Json::Object(m7));
}

/// Every listed text of a field is the encoding of a value that the field has
/// somewhere.
pub proof fn law_listed_texts_encode_values(
    stats: Stats,
    tops: Seq<Vec<(String, u64)>>,
    n: nat,
) -> (values: Seq<Seq<Json>>)
    requires
        lists_tops(tops, stats, n),
    ensures
        encodes(values, tops),
        forall|i: int, k: int|
            0 <= i < tops.len() && 0 <= k < tops[i]@.len() ==> field_values(
                records(stats.history@),
                stats.fields@[i].path.steps(),
            ).contains(#[trigger] values[i][k]),
{
    let seen = records(stats.history@);
    let values = Seq::new(
        tops.len(),
        |i: int|
            Seq::new(
                tops[i]@.len(),
                |k: int|
                    value_with(field_values(seen, stats.fields@[i].path.steps()), tops[i]@[k].0@),
            ),
    );
    assert forall|i: int, k: int| 0 <= i < tops.len() && 0 <= k < tops[i]@.len() implies field_values(
        seen,
        stats.fields@[i].path.steps(),
    ).contains(#[trigger] values[i][k]) && encoding(values[i][k]) == tops[i]@[k].0@ by {
        let all = field_values(seen, stats.fields@[i].path.steps());
        assert(tops_of(tops[i]@, stats.fields@[i], seen, n));
        lemma_tracked_items(encodings(all), 10_000);
        assert(encodings(all).contains(tops[i]@[k].0@));
        let at = choose|at: int|
            0 <= at < encodings(all).len() && encodings(all)[at] == tops[i]@[k].0@;
        assert(all.contains(all[at]) && encoding(all[at]) == tops[i]@[k].0@);
    }
    assert forall|i: int| 0 <= i < tops.len() implies encodes_all(
        #[trigger] values[i],
        tops[i]@,
    ) by {
        assert forall|k: int| 0 <= k < tops[i]@.len() implies encoding(values[i][k]) == (
        #[trigger] tops[i]@[k]).0@ by {
            assert(encoding(values[i][k]) == tops[i]@[k].0@);
        }
    }
    values
}

/// One of some values, with the given encoding.
spec fn value_with(values: Seq<Json>, text: Seq<char>) -> Json {
    choose|value: Json| #[trigger] values.contains(value) && encoding(value) == text
}

} // verus!
