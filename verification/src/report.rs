//! Reports: what the statistics and the schema look like on paper and as JSON.
//!
//! Numbers with a fraction come in as texts.

use crate::catalog::Sighting;
use crate::hist::{
    greatest, is_percentile, law_extremes_are_exact, law_one_percentile, least, At, Histogram,
};
use crate::json::render::{encoding, escape_into, quoted};
use crate::json::value::{kind_name, Json, Kind};
use crate::number::{append_decimal, decimal, digit_char};
use crate::path::reached;
use crate::record::{lengths as line_lengths, records};
use crate::schema::{law_one_way_to_list_paths, lists_paths, PathStats, Schema, MAX_PATHS};
use crate::stats::{
    encodings, field_values, key_batches, law_every_line_is_accounted_for,
    law_field_values_come_from_every_record, law_frequent_values_are_listed_first,
    law_one_way_to_list_keys, law_one_way_to_list_values, lists_keys, tops, FieldStats, Issue,
    KeyStats, Stats, TypeCounts,
};
use crate::text;
use vstd::prelude::*;
use vstd::string::StringExecFns;

verus! {

/// Texts in a row, with a separator between them.
pub open spec fn joined(parts: Seq<Seq<char>>, separator: Seq<char>) -> Seq<char>
    decreases parts.len(),
{
    if parts.len() == 0 {
        Seq::empty()
    } else if parts.len() == 1 {
        parts[0]
    } else {
        joined(parts.drop_last(), separator) + separator + parts.last()
    }
}

/// Texts in a row.
pub open spec fn in_a_row(parts: Seq<Seq<char>>) -> Seq<char>
    decreases parts.len(),
{
    if parts.len() == 0 {
        Seq::empty()
    } else {
        in_a_row(parts.drop_last()) + parts.last()
    }
}

/// The last three digits of a number.
pub open spec fn three_digits(n: nat) -> Seq<char> {
    seq![digit_char(n / 100 % 10), digit_char(n / 10 % 10), digit_char(n % 10)]
}

/// A number with a comma before every group of three digits but the first.
pub open spec fn grouped(n: nat) -> Seq<char>
    decreases n,
{
    if n < 1000 {
        decimal(n)
    } else {
        grouped(n / 1000) + seq![','] + three_digits(n)
    }
}

/// Spaces.
pub open spec fn spaces(n: int) -> Seq<char> {
    Seq::new(
        if n > 0 {
            n as nat
        } else {
            0
        },
        |i: int| ' ',
    )
}

/// A text with spaces after it, up to the given width.
pub open spec fn padded_right(s: Seq<char>, width: int) -> Seq<char> {
    s + spaces(width - s.len())
}

/// A text with spaces before it, up to the given width.
pub open spec fn padded_left(s: Seq<char>, width: int) -> Seq<char> {
    spaces(width - s.len()) + s
}

/// A number with commas, or a dash if there is none.
pub open spec fn count_or_dash(n: Option<u64>) -> Seq<char> {
    match n {
        Some(n) => grouped(n as nat),
        None => "-"@,
    }
}

/// A number, or `null` if there is none.
pub open spec fn number_or_null(n: Option<u64>) -> Seq<char> {
    match n {
        Some(n) => decimal(n as nat),
        None => "null"@,
    }
}

/// A text, or another if there is none.
pub open spec fn text_or(s: Option<String>, other: Seq<char>) -> Seq<char> {
    match s {
        Some(s) => s@,
        None => other,
    }
}

/// A truth value.
pub open spec fn truth(b: bool) -> Seq<char> {
    if b {
        "true"@
    } else {
        "false"@
    }
}

/// A type and its count, on paper.
pub open spec fn type_on_paper(pair: (Kind, nat)) -> Seq<char> {
    kind_name(pair.0) + ":"@ + grouped(pair.1)
}

/// Types and their counts, on paper.
pub open spec fn types_on_paper(types: Seq<(Kind, nat)>) -> Seq<char> {
    joined(types.map_values(|p: (Kind, nat)| type_on_paper(p)), " "@)
}

/// A type and its count, as a member of a JSON object.
pub open spec fn type_as_json(pair: (Kind, nat)) -> Seq<char> {
    "\""@ + kind_name(pair.0) + "\":"@ + decimal(pair.1)
}

/// Types and their counts, as a JSON object.
pub open spec fn types_as_json(types: Seq<(Kind, nat)>) -> Seq<char> {
    "{"@ + joined(types.map_values(|p: (Kind, nat)| type_as_json(p)), ","@) + "}"@
}

/// Appends the last three digits of a number.
fn append_three_digits(out: &mut String, n: u64)
    ensures
        final(out)@ == old(out)@ + three_digits(n as nat),
{
    text::append_scalar(out, 0x30 + (n / 100 % 10) as u32);
    text::append_scalar(out, 0x30 + (n / 10 % 10) as u32);
    text::append_scalar(out, 0x30 + (n % 10) as u32);
    assert(out@ =~= old(out)@ + three_digits(n as nat));
}

/// Appends a number with a comma before every group of three digits but the
/// first.
pub fn append_count(out: &mut String, n: u64)
    ensures
        final(out)@ == old(out)@ + grouped(n as nat),
    decreases n,
{
    if n < 1000 {
        append_decimal(out, n);
    } else {
        append_count(out, n / 1000);
        text::append_scalar(out, 0x2C);
        append_three_digits(out, n);
        assert(out@ =~= old(out)@ + grouped(n as nat));
    }
}

/// A number with a comma before every group of three digits but the first.
pub fn format_count(n: u64) -> (text: String)
    ensures
        text@ == grouped(n as nat),
{
    let mut out: String = String::new();
    append_count(&mut out, n);
    assert(out@ =~= grouped(n as nat));
    out
}

/// Appends spaces.
fn append_spaces(out: &mut String, n: usize)
    ensures
        final(out)@ == old(out)@ + spaces(n as int),
{
    let ghost start = out@;
    let mut i: usize = 0;
    assert(start + spaces(0) =~= start);
    while i < n
        invariant
            i <= n,
            out@ == start + spaces(i as int),
        decreases n - i,
    {
        text::append_scalar(out, 0x20);
        assert(out@ =~= start + spaces(i + 1));
        i = i + 1;
    }
}

/// Appends a text with spaces after it, up to the given width.
fn append_padded_right(out: &mut String, s: &str, width: usize)
    ensures
        final(out)@ == old(out)@ + padded_right(s@, width as int),
{
    let len: usize = s.unicode_len();
    out.append(s);
    if len < width {
        append_spaces(out, width - len);
    }
    assert(out@ =~= old(out)@ + padded_right(s@, width as int));
}

/// Appends a text with spaces before it, up to the given width.
fn append_padded_left(out: &mut String, s: &str, width: usize)
    ensures
        final(out)@ == old(out)@ + padded_left(s@, width as int),
{
    let len: usize = s.unicode_len();
    if len < width {
        append_spaces(out, width - len);
    }
    out.append(s);
    assert(out@ =~= old(out)@ + padded_left(s@, width as int));
}

/// Appends a number with commas, or a dash if there is none.
fn append_count_or_dash(out: &mut String, v: Option<u64>)
    ensures
        final(out)@ == old(out)@ + count_or_dash(v),
{
    match v {
        Some(n) => {
            append_count(out, n);
        },
        None => {
            out.append("-");
        },
    }
}

/// A number with commas, or a dash if there is none.
pub fn opt_u64(v: Option<u64>) -> (text: String)
    ensures
        text@ == count_or_dash(v),
{
    let mut out: String = String::new();
    append_count_or_dash(&mut out, v);
    assert(out@ =~= count_or_dash(v));
    out
}

/// Appends a number, or `null` if there is none.
fn append_number_or_null(out: &mut String, v: Option<u64>)
    ensures
        final(out)@ == old(out)@ + number_or_null(v),
{
    match v {
        Some(n) => {
            append_decimal(out, n);
        },
        None => {
            out.append("null");
        },
    }
}

/// Appends a truth value.
fn append_truth(out: &mut String, b: bool)
    ensures
        final(out)@ == old(out)@ + truth(b),
{
    if b {
        out.append("true");
    } else {
        out.append("false");
    }
}

/// Appends types and their counts, on paper.
pub fn append_types(out: &mut String, types: &TypeCounts)
    ensures
        final(out)@ == old(out)@ + types_on_paper(types@),
{
    let pairs = types.iter();
    let ghost start = out@;
    let ghost parts = types@.map_values(|p: (Kind, nat)| type_on_paper(p));
    let mut i: usize = 0;
    assert(parts.take(0) =~= Seq::empty());
    assert(start + joined(parts.take(0), " "@) =~= start);
    while i < pairs.len()
        invariant
            i <= pairs@.len() == types@.len(),
            forall|k: int|
                0 <= k < pairs@.len() ==> (#[trigger] pairs@[k]).0@ == kind_name(types@[k].0)
                    && pairs@[k].1 == types@[k].1,
            parts == types@.map_values(|p: (Kind, nat)| type_on_paper(p)),
            out@ == start + joined(parts.take(i as int), " "@),
        decreases pairs@.len() - i,
    {
        if i > 0 {
            out.append(" ");
        }
        out.append(pairs[i].0);
        out.append(":");
        append_count(out, pairs[i].1);
        proof {
            assert(parts.take(i + 1).drop_last() =~= parts.take(i as int));
            assert(parts.take(i + 1).last() == type_on_paper(types@[i as int]));
            assert(out@ =~= start + joined(parts.take(i + 1), " "@));
        }
        i = i + 1;
    }
    assert(parts.take(i as int) =~= parts);
}

/// Types and their counts, on paper.
pub fn format_type_counts(types: &TypeCounts) -> (text: String)
    ensures
        text@ == types_on_paper(types@),
{
    let mut out: String = String::new();
    append_types(&mut out, types);
    assert(out@ =~= types_on_paper(types@));
    out
}

/// Appends types and their counts, as a JSON object.
pub fn json_type_counts(types: &TypeCounts, out: &mut String)
    ensures
        final(out)@ == old(out)@ + types_as_json(types@),
{
    let pairs = types.iter();
    out.append("{");
    let ghost start = out@;
    let ghost parts = types@.map_values(|p: (Kind, nat)| type_as_json(p));
    let mut i: usize = 0;
    assert(parts.take(0) =~= Seq::empty());
    assert(start + joined(parts.take(0), ","@) =~= start);
    while i < pairs.len()
        invariant
            i <= pairs@.len() == types@.len(),
            forall|k: int|
                0 <= k < pairs@.len() ==> (#[trigger] pairs@[k]).0@ == kind_name(types@[k].0)
                    && pairs@[k].1 == types@[k].1,
            parts == types@.map_values(|p: (Kind, nat)| type_as_json(p)),
            out@ == start + joined(parts.take(i as int), ","@),
        decreases pairs@.len() - i,
    {
        if i > 0 {
            out.append(",");
        }
        out.append("\"");
        out.append(pairs[i].0);
        out.append("\":");
        append_decimal(out, pairs[i].1);
        proof {
            assert(parts.take(i + 1).drop_last() =~= parts.take(i as int));
            assert(parts.take(i + 1).last() == type_as_json(types@[i as int]));
            assert(out@ =~= start + joined(parts.take(i + 1), ","@));
        }
        i = i + 1;
    }
    assert(parts.take(i as int) =~= parts);
    out.append("}");
    assert(out@ =~= old(out)@ + types_as_json(types@));
}

/// The lengths of the lines, in figures. The mean comes as a text.
#[derive(Debug)]
pub struct Lengths {
    pub count: u64,
    pub min: Option<u64>,
    pub p50: Option<u64>,
    pub p90: Option<u64>,
    pub p99: Option<u64>,
    pub max: Option<u64>,
    pub mean: Option<String>,
}

impl Lengths {
    /// The figures are those of the given lengths, with percentiles at the given
    /// places.
    pub open spec fn describes(&self, values: Seq<u64>, p50: At, p90: At, p99: At) -> bool {
        &&& self.count == values.len()
        &&& self.min == if values.len() == 0 {
            None
        } else {
            Some(least(values))
        }
        &&& self.max == if values.len() == 0 {
            None
        } else {
            Some(greatest(values))
        }
        &&& is_percentile(self.p50, values, p50)
        &&& is_percentile(self.p90, values, p90)
        &&& is_percentile(self.p99, values, p99)
    }

    /// The figures are those of the given lengths, with percentiles at some
    /// places.
    pub open spec fn tells_of(&self, values: Seq<u64>) -> bool {
        exists|p50: At, p90: At, p99: At| self.describes(values, p50, p90, p99)
    }

    /// The figures are those of some lengths.
    pub open spec fn wf(&self) -> bool {
        exists|values: Seq<u64>| self.tells_of(values)
    }

    /// Reads the figures off a histogram.
    pub fn of(hist: &Histogram, p50: At, p90: At, p99: At, mean: Option<String>) -> (lengths:
        Self)
        requires
            hist.wf(),
        ensures
            lengths.mean == mean,
            lengths.wf(),
            forall|values: Seq<u64>| #[trigger]
                hist.describes(values) ==> lengths.describes(values, p50, p90, p99)
                    && lengths.tells_of(values),
    {
        let lengths = Lengths {
            count: hist.count(),
            min: hist.min(),
            p50: hist.percentile(p50),
            p90: hist.percentile(p90),
            p99: hist.percentile(p99),
            max: hist.max(),
            mean,
        };
        proof {
            assert forall|values: Seq<u64>| #[trigger]
                hist.describes(values) implies lengths.describes(values, p50, p90, p99)
                && lengths.tells_of(values) by {
                hist.lemma_recorded(values);
                assert(lengths.describes(values, p50, p90, p99));
            }
            let some = choose|values: Seq<u64>| hist.describes(values);
            assert(lengths.tells_of(some));
        }
        lengths
    }
}

/// The lengths of the lines, as a JSON object.
pub open spec fn lengths_as_json(l: Lengths) -> Seq<char> {
    "{\"count\":"@ + decimal(l.count as nat) + ",\"min\":"@ + number_or_null(l.min)
        + ",\"p50\":"@ + number_or_null(l.p50) + ",\"p90\":"@ + number_or_null(l.p90)
        + ",\"p99\":"@ + number_or_null(l.p99) + ",\"max\":"@ + number_or_null(l.max)
        + ",\"mean\":"@ + text_or(l.mean, "null"@) + "}"@
}

/// The lengths of the lines, on paper.
pub open spec fn lengths_on_paper(l: Lengths) -> Seq<char> {
    "  min "@ + count_or_dash(l.min) + "   p50 "@ + count_or_dash(l.p50) + "   p90 "@
        + count_or_dash(l.p90) + "   p99 "@ + count_or_dash(l.p99) + "   max "@ + count_or_dash(
        l.max,
    ) + "   mean "@ + text_or(l.mean, "-"@) + "\n"@
}

/// Appends a text, or another if there is none.
fn append_text_or(out: &mut String, s: &Option<String>, other: &str)
    ensures
        final(out)@ == old(out)@ + text_or(*s, other@),
{
    match s {
        Some(s) => {
            out.append(s.as_str());
        },
        None => {
            out.append(other);
        },
    }
}

/// The lengths of the lines, as a JSON object.
pub fn json_histogram(l: &Lengths) -> (text: String)
    requires
        l.wf(),
    ensures
        text@ == lengths_as_json(*l),
{
    let mut out: String = "{\"count\":".to_owned();
    append_decimal(&mut out, l.count);
    out.append(",\"min\":");
    append_number_or_null(&mut out, l.min);
    out.append(",\"p50\":");
    append_number_or_null(&mut out, l.p50);
    out.append(",\"p90\":");
    append_number_or_null(&mut out, l.p90);
    out.append(",\"p99\":");
    append_number_or_null(&mut out, l.p99);
    out.append(",\"max\":");
    append_number_or_null(&mut out, l.max);
    out.append(",\"mean\":");
    append_text_or(&mut out, &l.mean, "null");
    out.append("}");
    out
}

/// The lengths of the lines, on paper.
fn paper_lengths(l: &Lengths) -> (text: String)
    ensures
        text@ == lengths_on_paper(*l),
{
    let mut out: String = "  min ".to_owned();
    append_count_or_dash(&mut out, l.min);
    out.append("   p50 ");
    append_count_or_dash(&mut out, l.p50);
    out.append("   p90 ");
    append_count_or_dash(&mut out, l.p90);
    out.append("   p99 ");
    append_count_or_dash(&mut out, l.p99);
    out.append("   max ");
    append_count_or_dash(&mut out, l.max);
    out.append("   mean ");
    append_text_or(&mut out, &l.mean, "-");
    out.append("\n");
    out
}

/// A frequent value and its count, as a JSON object. The value is an encoding
/// already.
pub open spec fn value_as_json(entry: (String, u64)) -> Seq<char> {
    "{\"value\":"@ + entry.0@ + ",\"count\":"@ + decimal(entry.1 as nat) + "}"@
}

/// Frequent values, as the items of a JSON array.
pub open spec fn values_as_json(top: Seq<(String, u64)>) -> Seq<char> {
    joined(top.map_values(|e: (String, u64)| value_as_json(e)), ","@)
}

/// A field and its frequent values, as a JSON object.
pub open spec fn field_as_json(field: FieldStats, top: Seq<(String, u64)>) -> Seq<char> {
    "{\"path\":"@ + quoted(field.path.text()) + ",\"present\":"@ + decimal(field.present as nat)
        + ",\"values\":"@ + decimal(field.values as nat) + ",\"distinct\":"@ + decimal(
        field.value_counts.names().len(),
    ) + ",\"values_capped\":"@ + truth(field.values_capped) + ",\"types\":"@ + types_as_json(
        field.types@,
    ) + ",\"top\":["@ + values_as_json(top) + "]}"@
}

/// A key, as a JSON object.
pub open spec fn key_as_json(key: KeyStats) -> Seq<char> {
    "{\"key\":"@ + quoted(key.key@) + ",\"count\":"@ + decimal(key.count as nat) + ",\"types\":"@
        + types_as_json(key.types@) + "}"@
}

/// A broken line, as a JSON object.
pub open spec fn issue_as_json(issue: Issue) -> Seq<char> {
    "{\"line\":"@ + decimal(issue.line as nat) + ",\"column\":"@ + decimal(issue.column as nat)
        + ",\"reason\":"@ + quoted(issue.reason@) + "}"@
}

/// The counts of lines, as the first members of a JSON object.
pub open spec fn line_counts_as_json(stats: Stats) -> Seq<char> {
    "{\"lines\":"@ + decimal(stats.lines as nat) + ",\"blank\":"@ + decimal(stats.blank as nat)
        + ",\"valid\":"@ + decimal(stats.valid as nat) + ",\"invalid\":"@ + decimal(
        invalid_lines(stats),
    ) + ",\"bytes\":"@ + decimal(stats.bytes as nat)
}

/// The lines that neither parsed nor were blank.
pub open spec fn invalid_lines(stats: Stats) -> nat {
    (stats.lines - stats.blank - stats.valid) as nat
}

/// The fields with their frequent values, as the items of a JSON array.
pub open spec fn fields_as_json(
    fields: Seq<FieldStats>,
    tops: Seq<Vec<(String, u64)>>,
) -> Seq<char> {
    joined(Seq::new(fields.len(), |i: int| field_as_json(fields[i], tops[i]@)), ","@)
}

/// The statistics as a JSON object, given the listing of the keys, the frequent
/// values of each field, and the lengths in figures.
pub open spec fn stats_as_json(
    stats: Stats,
    keys: Seq<&KeyStats>,
    tops: Seq<Vec<(String, u64)>>,
    lengths: Lengths,
) -> Seq<char> {
    line_counts_as_json(stats) + ",\"top_level_types\":"@ + types_as_json(stats.top_level_types@)
        + ",\"line_length\":"@ + lengths_as_json(lengths) + ",\"keys_capped\":"@ + truth(
        stats.keys_capped,
    ) + ",\"keys\":["@ + joined(keys.map_values(|k: &KeyStats| key_as_json(*k)), ","@)
        + "],\"issues_truncated\":"@ + decimal(stats.issues_truncated as nat) + ",\"issues\":["@
        + joined(stats.issues@.map_values(|i: Issue| issue_as_json(i)), ","@) + "],\"fields\":["@
        + fields_as_json(stats.fields@, tops) + "]}"@
}

/// A frequent value and its count, as a JSON object.
fn json_value(entry: &(String, u64)) -> (text: String)
    ensures
        text@ == value_as_json(*entry),
{
    let mut out: String = "{\"value\":".to_owned();
    out.append(entry.0.as_str());
    out.append(",\"count\":");
    append_decimal(&mut out, entry.1);
    out.append("}");
    out
}

/// Appends frequent values, as the items of a JSON array.
fn append_values_json(out: &mut String, top: &Vec<(String, u64)>)
    ensures
        final(out)@ == old(out)@ + values_as_json(top@),
{
    let ghost start = out@;
    let ghost parts = top@.map_values(|e: (String, u64)| value_as_json(e));
    let mut i: usize = 0;
    assert(parts.take(0) =~= Seq::empty());
    assert(start + joined(parts.take(0), ","@) =~= start);
    while i < top.len()
        invariant
            i <= top@.len(),
            parts == top@.map_values(|e: (String, u64)| value_as_json(e)),
            out@ == start + joined(parts.take(i as int), ","@),
        decreases top@.len() - i,
    {
        if i > 0 {
            out.append(",");
        }
        out.append(json_value(&top[i]).as_str());
        proof {
            assert(parts.take(i + 1).drop_last() =~= parts.take(i as int));
            assert(parts.take(i + 1).last() == value_as_json(top@[i as int]));
            assert(out@ =~= start + joined(parts.take(i + 1), ","@));
        }
        i = i + 1;
    }
    assert(parts.take(i as int) =~= parts);
}

/// A listing holds frequent values of a field, up to some number of them.
pub open spec fn lists_values(top: Seq<(String, u64)>, field: FieldStats) -> bool {
    exists|values: Seq<Json>, n: nat|
        #![trigger field.counts(values), tops(top, encodings(values), n)]
        field.counts(values) && tops(top, encodings(values), n)
}

/// A field and its frequent values, as a JSON object.
pub fn json_field_stats(field: &FieldStats, top: &Vec<(String, u64)>) -> (text: String)
    requires
        lists_values(top@, *field),
    ensures
        text@ == field_as_json(*field, top@),
{
    let mut out: String = "{\"path\":".to_owned();
    escape_into(field.path.as_text(), &mut out);
    out.append(",\"present\":");
    append_decimal(&mut out, field.present);
    out.append(",\"values\":");
    append_decimal(&mut out, field.values);
    out.append(",\"distinct\":");
    append_decimal(&mut out, field.distinct() as u64);
    out.append(",\"values_capped\":");
    append_truth(&mut out, field.values_capped);
    out.append(",\"types\":");
    json_type_counts(&field.types, &mut out);
    out.append(",\"top\":[");
    append_values_json(&mut out, top);
    out.append("]}");
    out
}

/// A key, as a JSON object.
fn json_key(key: &KeyStats) -> (text: String)
    ensures
        text@ == key_as_json(*key),
{
    let mut out: String = "{\"key\":".to_owned();
    escape_into(key.key.as_str(), &mut out);
    out.append(",\"count\":");
    append_decimal(&mut out, key.count);
    out.append(",\"types\":");
    json_type_counts(&key.types, &mut out);
    out.append("}");
    out
}

/// A broken line, as a JSON object.
fn json_issue(issue: &Issue) -> (text: String)
    ensures
        text@ == issue_as_json(*issue),
{
    let mut out: String = "{\"line\":".to_owned();
    append_decimal(&mut out, issue.line);
    out.append(",\"column\":");
    append_decimal(&mut out, issue.column as u64);
    out.append(",\"reason\":");
    escape_into(issue.reason.as_str(), &mut out);
    out.append("}");
    out
}

/// Appends the keys, as the items of a JSON array.
fn append_keys_json(out: &mut String, keys: &Vec<&KeyStats>)
    ensures
        final(out)@ == old(out)@ + joined(keys@.map_values(|k: &KeyStats| key_as_json(*k)), ","@),
{
    let ghost start = out@;
    let ghost parts = keys@.map_values(|k: &KeyStats| key_as_json(*k));
    let mut i: usize = 0;
    assert(parts.take(0) =~= Seq::empty());
    assert(start + joined(parts.take(0), ","@) =~= start);
    while i < keys.len()
        invariant
            i <= keys@.len(),
            parts == keys@.map_values(|k: &KeyStats| key_as_json(*k)),
            out@ == start + joined(parts.take(i as int), ","@),
        decreases keys@.len() - i,
    {
        if i > 0 {
            out.append(",");
        }
        out.append(json_key(keys[i]).as_str());
        proof {
            assert(parts.take(i + 1).drop_last() =~= parts.take(i as int));
            assert(parts.take(i + 1).last() == key_as_json(*keys@[i as int]));
            assert(out@ =~= start + joined(parts.take(i + 1), ","@));
        }
        i = i + 1;
    }
    assert(parts.take(i as int) =~= parts);
}

/// Appends the broken lines, as the items of a JSON array.
fn append_issues_json(out: &mut String, issues: &Vec<Issue>)
    ensures
        final(out)@ == old(out)@ + joined(
            issues@.map_values(|i: Issue| issue_as_json(i)),
            ","@,
        ),
{
    let ghost start = out@;
    let ghost parts = issues@.map_values(|i: Issue| issue_as_json(i));
    let mut i: usize = 0;
    assert(parts.take(0) =~= Seq::empty());
    assert(start + joined(parts.take(0), ","@) =~= start);
    while i < issues.len()
        invariant
            i <= issues@.len(),
            parts == issues@.map_values(|i: Issue| issue_as_json(i)),
            out@ == start + joined(parts.take(i as int), ","@),
        decreases issues@.len() - i,
    {
        if i > 0 {
            out.append(",");
        }
        out.append(json_issue(&issues[i]).as_str());
        proof {
            assert(parts.take(i + 1).drop_last() =~= parts.take(i as int));
            assert(parts.take(i + 1).last() == issue_as_json(issues@[i as int]));
            assert(out@ =~= start + joined(parts.take(i + 1), ","@));
        }
        i = i + 1;
    }
    assert(parts.take(i as int) =~= parts);
}

/// Appends the fields with their frequent values, as the items of a JSON array.
fn append_fields_json(
    out: &mut String,
    fields: &Vec<FieldStats>,
    tops: &Vec<Vec<(String, u64)>>,
)
    requires
        fields@.len() == tops@.len(),
        forall|i: int| 0 <= i < fields@.len() ==> lists_values(tops@[i]@, #[trigger] fields@[i]),
    ensures
        final(out)@ == old(out)@ + fields_as_json(fields@, tops@),
{
    let ghost start = out@;
    let ghost parts = Seq::new(fields@.len(), |i: int| field_as_json(fields@[i], tops@[i]@));
    let mut i: usize = 0;
    assert(parts.take(0) =~= Seq::empty());
    assert(start + joined(parts.take(0), ","@) =~= start);
    while i < fields.len()
        invariant
            i <= fields@.len() == tops@.len(),
            forall|i: int|
                0 <= i < fields@.len() ==> lists_values(tops@[i]@, #[trigger] fields@[i]),
            parts == Seq::new(fields@.len(), |i: int| field_as_json(fields@[i], tops@[i]@)),
            out@ == start + joined(parts.take(i as int), ","@),
        decreases fields@.len() - i,
    {
        if i > 0 {
            out.append(",");
        }
        out.append(json_field_stats(&fields[i], &tops[i]).as_str());
        proof {
            assert(parts.take(i + 1).drop_last() =~= parts.take(i as int));
            assert(parts.take(i + 1).last() == field_as_json(fields@[i as int], tops@[i as int]@));
            assert(out@ =~= start + joined(parts.take(i + 1), ","@));
        }
        i = i + 1;
    }
    assert(parts.take(i as int) =~= parts);
}

/// The counts of lines, as the first members of a JSON object.
fn json_line_counts(stats: &Stats) -> (text: String)
    requires
        stats.wf(),
    ensures
        text@ == line_counts_as_json(*stats),
{
    proof {
        law_every_line_is_accounted_for(*stats);
    }
    let mut out: String = "{\"lines\":".to_owned();
    append_decimal(&mut out, stats.lines);
    out.append(",\"blank\":");
    append_decimal(&mut out, stats.blank);
    out.append(",\"valid\":");
    append_decimal(&mut out, stats.valid);
    out.append(",\"invalid\":");
    append_decimal(&mut out, stats.invalid());
    out.append(",\"bytes\":");
    append_decimal(&mut out, stats.bytes);
    out
}

/// The statistics as a JSON object, given the listing of the keys, the frequent
/// values of each field, and the lengths in figures.
pub fn stats_text(
    stats: &Stats,
    keys: &Vec<&KeyStats>,
    tops: &Vec<Vec<(String, u64)>>,
    lengths: &Lengths,
) -> (text: String)
    requires
        stats.wf(),
        lists_keys(keys@, key_batches(records(stats.history@))),
        exists|n: nat| lists_tops(tops@, *stats, n),
        lengths.tells_of(line_lengths(stats.history@)),
    ensures
        text@ == stats_as_json(*stats, keys@, tops@, *lengths),
{
    let mut out: String = json_line_counts(stats);
    out.append(",\"top_level_types\":");
    json_type_counts(&stats.top_level_types, &mut out);
    out.append(",\"line_length\":");
    out.append(json_histogram(lengths).as_str());
    out.append(",\"keys_capped\":");
    append_truth(&mut out, stats.keys_capped);
    out.append(",\"keys\":[");
    append_keys_json(&mut out, keys);
    out.append("],\"issues_truncated\":");
    append_decimal(&mut out, stats.issues_truncated);
    out.append(",\"issues\":[");
    append_issues_json(&mut out, &stats.issues);
    out.append("],\"fields\":[");
    proof {
        let n = choose|n: nat| lists_tops(tops@, *stats, n);
        let seen = records(stats.history@);
        assert forall|i: int| 0 <= i < stats.fields@.len() implies lists_values(
            tops@[i]@,
            #[trigger] stats.fields@[i],
        ) by {
            assert(tops_of(tops@[i]@, stats.fields@[i], seen, n));
            lemma_lists_values(tops@[i]@, stats.fields@[i], seen, n);
        }
    }
    append_fields_json(&mut out, &stats.fields, tops);
    out.append("]}");
    out
}

/// Listings of the frequent values of each field, `n` at most.
pub open spec fn lists_tops(tops: Seq<Vec<(String, u64)>>, stats: Stats, n: nat) -> bool {
    &&& tops.len() == stats.fields@.len()
    &&& forall|i: int|
        0 <= i < tops.len() ==> tops_of(
            (#[trigger] tops[i])@,
            stats.fields@[i],
            records(stats.history@),
            n,
        )
}

/// A listing of the frequent values of a field, `n` at most.
pub open spec fn tops_of(
    top: Seq<(String, u64)>,
    field: FieldStats,
    records: Seq<Json>,
    n: nat,
) -> bool {
    tops(top, encodings(field_values(records, field.path.steps())), n)
}

proof fn lemma_lists_values(top: Seq<(String, u64)>, field: FieldStats, records: Seq<Json>, n: nat)
    requires
        field.describes(records),
        tops_of(top, field, records, n),
    ensures
        lists_values(top, field),
{
    let values = field_values(records, field.path.steps());
    assert(field.counts(values) && tops(top, encodings(values), n));
}

/// The statistics as a JSON object: every tracked key, the `top` most frequent
/// values of each field, and the lengths with percentiles at the given places.
pub fn json_stats(
    stats: &Stats,
    top: usize,
    p50: At,
    p90: At,
    p99: At,
    mean: Option<String>,
) -> (text: String)
    requires
        stats.wf(),
    ensures
        exists|keys: Seq<&KeyStats>, tops: Seq<Vec<(String, u64)>>, lengths: Lengths|
            lists_keys(keys, key_batches(records(stats.history@))) && lists_tops(
                tops,
                *stats,
                top as nat,
            ) && lengths.describes(line_lengths(stats.history@), p50, p90, p99) && lengths.mean
                == mean && text@ == #[trigger] stats_as_json(*stats, keys, tops, lengths),
{
    let keys = stats.keys();
    let tops = field_tops(stats, top);
    assert(stats.line_length.describes(line_lengths(stats.history@)));
    let lengths = Lengths::of(&stats.line_length, p50, p90, p99, mean);
    stats_text(stats, &keys, &tops, &lengths)
}

/// The `n` most frequent values of each field.
pub fn field_tops(stats: &Stats, n: usize) -> (tops: Vec<Vec<(String, u64)>>)
    requires
        stats.wf(),
    ensures
        lists_tops(tops@, *stats, n as nat),
{
    let ghost seen = records(stats.history@);
    let mut tops: Vec<Vec<(String, u64)>> = Vec::new();
    let mut i: usize = 0;
    while i < stats.fields.len()
        invariant
            i <= stats.fields@.len(),
            stats.wf(),
            seen == records(stats.history@),
            tops@.len() == i,
            forall|k: int|
                0 <= k < i ==> tops_of((#[trigger] tops@[k])@, stats.fields@[k], seen, n as nat),
        decreases stats.fields@.len() - i,
    {
        let field = &stats.fields[i];
        assert(field.describes(seen));
        assert(field.counts(field_values(seen, field.path.steps())));
        tops.push(field.top(n));
        i = i + 1;
    }
    tops
}

/// A path and the share of records that contain it, as a JSON object.
pub open spec fn path_as_json(path: PathStats, rate: Seq<char>) -> Seq<char> {
    "{\"path\":"@ + quoted(path.path@) + ",\"present\":"@ + decimal(path.present as nat)
        + ",\"occurrences\":"@ + decimal(path.occurrences as nat) + ",\"rate\":"@ + rate
        + ",\"types\":"@ + types_as_json(path.types@) + "}"@
}

/// The schema as a JSON object, given the listing of the paths and the share of
/// records that contain each.
pub open spec fn schema_as_json(
    schema: Schema,
    paths: Seq<&PathStats>,
    rates: Seq<String>,
) -> Seq<char> {
    "{\"records\":"@ + decimal(schema.records as nat) + ",\"unparseable\":"@ + decimal(
        schema.unparseable as nat,
    ) + ",\"paths_capped\":"@ + truth(schema.paths_capped) + ",\"paths\":["@ + joined(
        Seq::new(paths.len(), |i: int| path_as_json(*paths[i], rates[i]@)),
        ","@,
    ) + "]}"@
}

/// A path and the share of records that contain it, as a JSON object.
fn json_path(path: &PathStats, rate: &str) -> (text: String)
    ensures
        text@ == path_as_json(*path, rate@),
{
    let mut out: String = "{\"path\":".to_owned();
    escape_into(path.path.as_str(), &mut out);
    out.append(",\"present\":");
    append_decimal(&mut out, path.present);
    out.append(",\"occurrences\":");
    append_decimal(&mut out, path.occurrences);
    out.append(",\"rate\":");
    out.append(rate);
    out.append(",\"types\":");
    json_type_counts(&path.types, &mut out);
    out.append("}");
    out
}

/// Appends the paths, as the items of a JSON array.
fn append_paths_json(out: &mut String, paths: &Vec<&PathStats>, rates: &Vec<String>)
    requires
        paths@.len() == rates@.len(),
    ensures
        final(out)@ == old(out)@ + joined(
            Seq::new(paths@.len(), |i: int| path_as_json(*paths@[i], rates@[i]@)),
            ","@,
        ),
{
    let ghost start = out@;
    let ghost parts = Seq::new(paths@.len(), |i: int| path_as_json(*paths@[i], rates@[i]@));
    let mut i: usize = 0;
    assert(parts.take(0) =~= Seq::empty());
    assert(start + joined(parts.take(0), ","@) =~= start);
    while i < paths.len()
        invariant
            i <= paths@.len() == rates@.len(),
            parts == Seq::new(paths@.len(), |i: int| path_as_json(*paths@[i], rates@[i]@)),
            out@ == start + joined(parts.take(i as int), ","@),
        decreases paths@.len() - i,
    {
        if i > 0 {
            out.append(",");
        }
        out.append(json_path(paths[i], rates[i].as_str()).as_str());
        proof {
            assert(parts.take(i + 1).drop_last() =~= parts.take(i as int));
            assert(parts.take(i + 1).last() == path_as_json(*paths@[i as int], rates@[i as int]@));
            assert(out@ =~= start + joined(parts.take(i + 1), ","@));
        }
        i = i + 1;
    }
    assert(parts.take(i as int) =~= parts);
}

/// The schema as a JSON object, given the listing of the paths and the share of
/// records that contain each.
pub fn json_schema(schema: &Schema, paths: &Vec<&PathStats>, rates: &Vec<String>) -> (text: String)
    requires
        schema.wf(),
        exists|m: nat| lists_paths(paths@, schema.batches(), m),
        paths@.len() == rates@.len(),
    ensures
        text@ == schema_as_json(*schema, paths@, rates@),
{
    let mut out: String = "{\"records\":".to_owned();
    append_decimal(&mut out, schema.records);
    out.append(",\"unparseable\":");
    append_decimal(&mut out, schema.unparseable);
    out.append(",\"paths_capped\":");
    append_truth(&mut out, schema.paths_capped);
    out.append(",\"paths\":[");
    append_paths_json(&mut out, paths, rates);
    out.append("]}");
    out
}

/// A path on paper, with the percentage of records that contain it.
pub open spec fn path_on_paper(path: PathStats, percent: Seq<char>) -> Seq<char> {
    "  "@ + padded_right(path.path@, 40) + " "@ + padded_left(percent, 6) + "%  "@
        + types_on_paper(path.types@) + "\n"@
}

/// What a schema on paper says of lines that it passed over.
pub open spec fn skipped_on_paper(unparseable: u64) -> Seq<char> {
    if unparseable == 0 {
        Seq::empty()
    } else {
        decimal(unparseable as nat) + " unparseable "@ + (if unparseable == 1 {
            "line"@
        } else {
            "lines"@
        }) + " skipped\n"@
    }
}

/// What a schema on paper says of a full table.
pub open spec fn capped_on_paper(capped: bool) -> Seq<char> {
    if capped {
        "path table capped at "@ + decimal(MAX_PATHS as nat) + "\n"@
    } else {
        Seq::empty()
    }
}

/// The schema on paper, given the listing of the paths and the percentage of
/// records that contain each.
pub open spec fn schema_on_paper(
    schema: Schema,
    paths: Seq<&PathStats>,
    percents: Seq<String>,
    file: Seq<char>,
) -> Seq<char> {
    "file    "@ + file + "\n"@ + grouped(schema.records as nat) + " records, depth "@ + decimal(
        schema.depth as nat,
    ) + "\n\n"@ + in_a_row(
        Seq::new(paths.len(), |i: int| path_on_paper(*paths[i], percents[i]@)),
    ) + "\n"@ + skipped_on_paper(schema.unparseable) + capped_on_paper(schema.paths_capped)
}

/// A path on paper, with the percentage of records that contain it.
fn paper_path(path: &PathStats, percent: &str) -> (text: String)
    ensures
        text@ == path_on_paper(*path, percent@),
{
    let mut out: String = "  ".to_owned();
    append_padded_right(&mut out, path.path.as_str(), 40);
    out.append(" ");
    append_padded_left(&mut out, percent, 6);
    out.append("%  ");
    append_types(&mut out, &path.types);
    out.append("\n");
    out
}

/// What a schema on paper says of lines that it passed over.
fn paper_skipped(unparseable: u64) -> (text: String)
    ensures
        text@ == skipped_on_paper(unparseable),
{
    let mut out: String = String::new();
    if unparseable > 0 {
        append_decimal(&mut out, unparseable);
        assert(out@ =~= decimal(unparseable as nat));
        out.append(" unparseable ");
        if unparseable == 1 {
            out.append("line");
        } else {
            out.append("lines");
        }
        out.append(" skipped\n");
    }
    out
}

/// What a schema on paper says of a full table.
fn paper_capped(capped: bool) -> (text: String)
    ensures
        text@ == capped_on_paper(capped),
{
    if !capped {
        return String::new();
    }
    let mut out: String = "path table capped at ".to_owned();
    append_decimal(&mut out, MAX_PATHS as u64);
    out.append("\n");
    out
}

/// Appends the paths on paper.
fn append_paths(out: &mut String, paths: &Vec<&PathStats>, percents: &Vec<String>)
    requires
        paths@.len() == percents@.len(),
    ensures
        final(out)@ == old(out)@ + in_a_row(
            Seq::new(paths@.len(), |i: int| path_on_paper(*paths@[i], percents@[i]@)),
        ),
{
    let ghost start = out@;
    let ghost parts = Seq::new(paths@.len(), |i: int| path_on_paper(*paths@[i], percents@[i]@));
    let mut i: usize = 0;
    assert(parts.take(0) =~= Seq::empty());
    assert(start + in_a_row(parts.take(0)) =~= start);
    while i < paths.len()
        invariant
            i <= paths@.len() == percents@.len(),
            parts == Seq::new(paths@.len(), |i: int| path_on_paper(*paths@[i], percents@[i]@)),
            out@ == start + in_a_row(parts.take(i as int)),
        decreases paths@.len() - i,
    {
        out.append(paper_path(paths[i], percents[i].as_str()).as_str());
        proof {
            assert(parts.take(i + 1).drop_last() =~= parts.take(i as int));
            assert(parts.take(i + 1).last() == path_on_paper(
                *paths@[i as int],
                percents@[i as int]@,
            ));
            assert(out@ =~= start + in_a_row(parts.take(i + 1)));
        }
        i = i + 1;
    }
    assert(parts.take(i as int) =~= parts);
}

/// The schema on paper, given the listing of the paths and the percentage of
/// records that contain each.
pub fn paper_schema(
    schema: &Schema,
    paths: &Vec<&PathStats>,
    percents: &Vec<String>,
    file: &str,
) -> (text: String)
    requires
        schema.wf(),
        exists|m: nat| lists_paths(paths@, schema.batches(), m),
        paths@.len() == percents@.len(),
    ensures
        text@ == schema_on_paper(*schema, paths@, percents@, file@),
{
    let mut out: String = "file    ".to_owned();
    out.append(file);
    out.append("\n");
    append_count(&mut out, schema.records);
    out.append(" records, depth ");
    append_decimal(&mut out, schema.depth as u64);
    out.append("\n\n");
    append_paths(&mut out, paths, percents);
    out.append("\n");
    out.append(paper_skipped(schema.unparseable).as_str());
    out.append(paper_capped(schema.paths_capped).as_str());
    out
}

/// A key on paper, with its percentage.
pub open spec fn key_on_paper(key: KeyStats, percent: Seq<char>) -> Seq<char> {
    "  "@ + padded_right(key.key@, 24) + " "@ + padded_left(grouped(key.count as nat), 10) + "  "@
        + padded_left(percent, 5) + "%  "@ + types_on_paper(key.types@) + "\n"@
}

/// A frequent value on paper, with its percentage.
pub open spec fn value_on_paper(entry: (String, u64), percent: Seq<char>) -> Seq<char> {
    "  "@ + padded_left(grouped(entry.1 as nat), 10) + "  "@ + padded_left(percent, 5) + "%  "@
        + entry.0@ + "\n"@
}

/// What a report shows of a field besides its figures: its frequent values, the
/// percentage of records that contain it, and the percentage of each value.
#[derive(Debug)]
pub struct FieldDetail {
    pub top: Vec<(String, u64)>,
    pub percent: String,
    pub value_percents: Vec<String>,
}

/// A field on paper, out of the given number of records.
pub open spec fn field_on_paper(field: FieldStats, detail: FieldDetail, valid: u64) -> Seq<char> {
    "\nfield "@ + field.path.text() + "\n  present in "@ + grouped(field.present as nat) + " of "@
        + grouped(valid as nat) + " records ("@ + detail.percent@ + "%), "@ + grouped(
        field.values as nat,
    ) + " values, types "@ + types_on_paper(field.types@) + "\n  "@ + decimal(
        field.value_counts.names().len(),
    ) + " distinct values"@ + (if field.values_capped {
        " (capped)"@
    } else {
        ""@
    }) + "\n"@ + in_a_row(
        Seq::new(
            detail.top@.len(),
            |i: int| value_on_paper(detail.top@[i], detail.value_percents@[i]@),
        ),
    )
}

/// A broken line on paper.
pub open spec fn issue_on_paper(issue: Issue) -> Seq<char> {
    "  line "@ + decimal(issue.line as nat) + " col "@ + decimal(issue.column as nat) + ": "@
        + issue.reason@ + "\n"@
}

/// The broken lines on paper.
pub open spec fn issues_on_paper(stats: Stats) -> Seq<char> {
    if stats.issues@.len() + stats.issues_truncated == 0 {
        Seq::empty()
    } else {
        "\ninvalid lines ("@ + decimal(stats.issues@.len() + stats.issues_truncated as nat)
            + " total, showing "@ + decimal(stats.issues@.len()) + ")\n"@ + in_a_row(
            stats.issues@.map_values(|i: Issue| issue_on_paper(i)),
        )
    }
}

/// The counts of lines on paper. The size comes in kibibytes too.
pub open spec fn line_counts_on_paper(stats: Stats, file: Seq<char>, kib: Seq<char>) -> Seq<char> {
    "file    "@ + file + "\nlines  "@ + grouped(stats.lines as nat) + "   blank "@ + grouped(
        stats.blank as nat,
    ) + "   invalid "@ + grouped(invalid_lines(stats)) + "   valid "@ + grouped(stats.valid as nat)
        + "\nbytes  "@ + grouped(stats.bytes as nat) + "   ("@ + kib + " KiB)\ntop level  "@
        + types_on_paper(stats.top_level_types@) + "\n\nline length in bytes\n"@
}

/// The statistics on paper, given the listing of the keys with their
/// percentages, what to show of each field, the lengths in figures, and the
/// size in kibibytes.
pub open spec fn stats_on_paper(
    stats: Stats,
    keys: Seq<&KeyStats>,
    percents: Seq<String>,
    details: Seq<FieldDetail>,
    lengths: Lengths,
    file: Seq<char>,
    kib: Seq<char>,
) -> Seq<char> {
    line_counts_on_paper(stats, file, kib) + lengths_on_paper(lengths)
        + "\ntop level keys over "@ + grouped(stats.valid as nat) + " objects\n"@ + in_a_row(
        Seq::new(keys.len(), |i: int| key_on_paper(*keys[i], percents[i]@)),
    ) + in_a_row(
        Seq::new(
            stats.fields@.len(),
            |i: int| field_on_paper(stats.fields@[i], details[i], stats.valid),
        ),
    ) + issues_on_paper(stats)
}

/// A key on paper, with its percentage.
fn paper_key(key: &KeyStats, percent: &str) -> (text: String)
    ensures
        text@ == key_on_paper(*key, percent@),
{
    let mut out: String = "  ".to_owned();
    append_padded_right(&mut out, key.key.as_str(), 24);
    out.append(" ");
    append_padded_left(&mut out, format_count(key.count).as_str(), 10);
    out.append("  ");
    append_padded_left(&mut out, percent, 5);
    out.append("%  ");
    append_types(&mut out, &key.types);
    out.append("\n");
    out
}

/// A frequent value on paper, with its percentage.
fn paper_value(entry: &(String, u64), percent: &str) -> (text: String)
    ensures
        text@ == value_on_paper(*entry, percent@),
{
    let mut out: String = "  ".to_owned();
    append_padded_left(&mut out, format_count(entry.1).as_str(), 10);
    out.append("  ");
    append_padded_left(&mut out, percent, 5);
    out.append("%  ");
    out.append(entry.0.as_str());
    out.append("\n");
    out
}

/// A broken line on paper.
fn paper_issue(issue: &Issue) -> (text: String)
    ensures
        text@ == issue_on_paper(*issue),
{
    let mut out: String = "  line ".to_owned();
    append_decimal(&mut out, issue.line);
    out.append(" col ");
    append_decimal(&mut out, issue.column as u64);
    out.append(": ");
    out.append(issue.reason.as_str());
    out.append("\n");
    out
}

/// Appends the keys on paper.
fn append_keys(out: &mut String, keys: &Vec<&KeyStats>, percents: &Vec<String>)
    requires
        keys@.len() == percents@.len(),
    ensures
        final(out)@ == old(out)@ + in_a_row(
            Seq::new(keys@.len(), |i: int| key_on_paper(*keys@[i], percents@[i]@)),
        ),
{
    let ghost start = out@;
    let ghost parts = Seq::new(keys@.len(), |i: int| key_on_paper(*keys@[i], percents@[i]@));
    let mut i: usize = 0;
    assert(parts.take(0) =~= Seq::empty());
    assert(start + in_a_row(parts.take(0)) =~= start);
    while i < keys.len()
        invariant
            i <= keys@.len() == percents@.len(),
            parts == Seq::new(keys@.len(), |i: int| key_on_paper(*keys@[i], percents@[i]@)),
            out@ == start + in_a_row(parts.take(i as int)),
        decreases keys@.len() - i,
    {
        out.append(paper_key(keys[i], percents[i].as_str()).as_str());
        proof {
            assert(parts.take(i + 1).drop_last() =~= parts.take(i as int));
            assert(parts.take(i + 1).last() == key_on_paper(*keys@[i as int], percents@[i as int]@));
            assert(out@ =~= start + in_a_row(parts.take(i + 1)));
        }
        i = i + 1;
    }
    assert(parts.take(i as int) =~= parts);
}

/// Appends the frequent values of a field on paper.
fn append_values(out: &mut String, top: &Vec<(String, u64)>, percents: &Vec<String>)
    requires
        top@.len() == percents@.len(),
    ensures
        final(out)@ == old(out)@ + in_a_row(
            Seq::new(top@.len(), |i: int| value_on_paper(top@[i], percents@[i]@)),
        ),
{
    let ghost start = out@;
    let ghost parts = Seq::new(top@.len(), |i: int| value_on_paper(top@[i], percents@[i]@));
    let mut i: usize = 0;
    assert(parts.take(0) =~= Seq::empty());
    assert(start + in_a_row(parts.take(0)) =~= start);
    while i < top.len()
        invariant
            i <= top@.len() == percents@.len(),
            parts == Seq::new(top@.len(), |i: int| value_on_paper(top@[i], percents@[i]@)),
            out@ == start + in_a_row(parts.take(i as int)),
        decreases top@.len() - i,
    {
        out.append(paper_value(&top[i], percents[i].as_str()).as_str());
        proof {
            assert(parts.take(i + 1).drop_last() =~= parts.take(i as int));
            assert(parts.take(i + 1).last() == value_on_paper(top@[i as int], percents@[i as int]@));
            assert(out@ =~= start + in_a_row(parts.take(i + 1)));
        }
        i = i + 1;
    }
    assert(parts.take(i as int) =~= parts);
}

/// A field on paper, out of the given number of records.
fn paper_field(field: &FieldStats, detail: &FieldDetail, valid: u64) -> (text: String)
    requires
        field.value_counts.wf(),
        detail.top@.len() == detail.value_percents@.len(),
    ensures
        text@ == field_on_paper(*field, *detail, valid),
{
    let mut out: String = "\nfield ".to_owned();
    out.append(field.path.as_text());
    out.append("\n  present in ");
    append_count(&mut out, field.present);
    out.append(" of ");
    append_count(&mut out, valid);
    out.append(" records (");
    out.append(detail.percent.as_str());
    out.append("%), ");
    append_count(&mut out, field.values);
    out.append(" values, types ");
    append_types(&mut out, &field.types);
    out.append("\n  ");
    append_decimal(&mut out, field.distinct() as u64);
    out.append(" distinct values");
    if field.values_capped {
        out.append(" (capped)");
    } else {
        out.append("");
    }
    out.append("\n");
    append_values(&mut out, &detail.top, &detail.value_percents);
    out
}

/// A report shows as many percentages of values as it shows values.
pub open spec fn sound_detail(detail: FieldDetail) -> bool {
    detail.top@.len() == detail.value_percents@.len()
}

/// What a report shows of each field holds its frequent values, `n` at most.
pub open spec fn shows_tops(details: Seq<FieldDetail>, stats: Stats, n: nat) -> bool {
    &&& details.len() == stats.fields@.len()
    &&& forall|i: int|
        0 <= i < details.len() ==> tops_of(
            (#[trigger] details[i]).top@,
            stats.fields@[i],
            records(stats.history@),
            n,
        )
}

/// Appends the fields on paper.
fn append_fields(
    out: &mut String,
    fields: &Vec<FieldStats>,
    details: &Vec<FieldDetail>,
    valid: u64,
)
    requires
        fields@.len() == details@.len(),
        forall|i: int| 0 <= i < fields@.len() ==> (#[trigger] fields@[i]).value_counts.wf(),
        forall|i: int| 0 <= i < details@.len() ==> sound_detail(#[trigger] details@[i]),
    ensures
        final(out)@ == old(out)@ + in_a_row(
            Seq::new(fields@.len(), |i: int| field_on_paper(fields@[i], details@[i], valid)),
        ),
{
    let ghost start = out@;
    let ghost parts = Seq::new(
        fields@.len(),
        |i: int| field_on_paper(fields@[i], details@[i], valid),
    );
    let mut i: usize = 0;
    assert(parts.take(0) =~= Seq::empty());
    assert(start + in_a_row(parts.take(0)) =~= start);
    while i < fields.len()
        invariant
            i <= fields@.len() == details@.len(),
            forall|i: int| 0 <= i < fields@.len() ==> (#[trigger] fields@[i]).value_counts.wf(),
            forall|i: int| 0 <= i < details@.len() ==> sound_detail(#[trigger] details@[i]),
            parts == Seq::new(
                fields@.len(),
                |i: int| field_on_paper(fields@[i], details@[i], valid),
            ),
            out@ == start + in_a_row(parts.take(i as int)),
        decreases fields@.len() - i,
    {
        assert(sound_detail(details@[i as int]));
        out.append(paper_field(&fields[i], &details[i], valid).as_str());
        proof {
            assert(parts.take(i + 1).drop_last() =~= parts.take(i as int));
            assert(parts.take(i + 1).last() == field_on_paper(
                fields@[i as int],
                details@[i as int],
                valid,
            ));
            assert(out@ =~= start + in_a_row(parts.take(i + 1)));
        }
        i = i + 1;
    }
    assert(parts.take(i as int) =~= parts);
}

/// The broken lines on paper.
fn paper_issues(stats: &Stats) -> (text: String)
    requires
        stats.issues@.len() + stats.issues_truncated <= u64::MAX,
    ensures
        text@ == issues_on_paper(*stats),
{
    let total: u64 = stats.issues.len() as u64 + stats.issues_truncated;
    if total == 0 {
        return String::new();
    }
    let mut out: String = "\ninvalid lines (".to_owned();
    append_decimal(&mut out, total);
    out.append(" total, showing ");
    append_decimal(&mut out, stats.issues.len() as u64);
    out.append(")\n");
    let issues = &stats.issues;
    let ghost start = out@;
    let ghost parts = issues@.map_values(|i: Issue| issue_on_paper(i));
    let mut i: usize = 0;
    assert(parts.take(0) =~= Seq::empty());
    assert(start + in_a_row(parts.take(0)) =~= start);
    while i < issues.len()
        invariant
            i <= issues@.len(),
            parts == issues@.map_values(|i: Issue| issue_on_paper(i)),
            out@ == start + in_a_row(parts.take(i as int)),
        decreases issues@.len() - i,
    {
        out.append(paper_issue(&issues[i]).as_str());
        proof {
            assert(parts.take(i + 1).drop_last() =~= parts.take(i as int));
            assert(parts.take(i + 1).last() == issue_on_paper(issues@[i as int]));
            assert(out@ =~= start + in_a_row(parts.take(i + 1)));
        }
        i = i + 1;
    }
    assert(parts.take(i as int) =~= parts);
    out
}

/// The counts of lines on paper. The size comes in kibibytes too.
fn paper_line_counts(stats: &Stats, file: &str, kib: &str) -> (text: String)
    requires
        stats.wf(),
    ensures
        text@ == line_counts_on_paper(*stats, file@, kib@),
{
    proof {
        law_every_line_is_accounted_for(*stats);
    }
    let mut out: String = "file    ".to_owned();
    out.append(file);
    out.append("\nlines  ");
    append_count(&mut out, stats.lines);
    out.append("   blank ");
    append_count(&mut out, stats.blank);
    out.append("   invalid ");
    append_count(&mut out, stats.invalid());
    out.append("   valid ");
    append_count(&mut out, stats.valid);
    out.append("\nbytes  ");
    append_count(&mut out, stats.bytes);
    out.append("   (");
    out.append(kib);
    out.append(" KiB)\ntop level  ");
    append_types(&mut out, &stats.top_level_types);
    out.append("\n\nline length in bytes\n");
    out
}

/// The statistics on paper, given the listing of the keys with their
/// percentages, what to show of each field, the lengths in figures, and the
/// size in kibibytes.
pub fn paper_stats(
    stats: &Stats,
    keys: &Vec<&KeyStats>,
    percents: &Vec<String>,
    details: &Vec<FieldDetail>,
    lengths: &Lengths,
    file: &str,
    kib: &str,
) -> (text: String)
    requires
        stats.wf(),
        lists_keys(keys@, key_batches(records(stats.history@))),
        exists|n: nat| shows_tops(details@, *stats, n),
        lengths.tells_of(line_lengths(stats.history@)),
        keys@.len() == percents@.len(),
        forall|i: int| 0 <= i < details@.len() ==> sound_detail(#[trigger] details@[i]),
    ensures
        text@ == stats_on_paper(*stats, keys@, percents@, details@, *lengths, file@, kib@),
{
    let mut out: String = paper_line_counts(stats, file, kib);
    out.append(paper_lengths(lengths).as_str());
    out.append("\ntop level keys over ");
    append_count(&mut out, stats.valid);
    out.append(" objects\n");
    append_keys(&mut out, keys, percents);
    proof {
        law_every_line_is_accounted_for(*stats);
        assert forall|i: int| 0 <= i < stats.fields@.len() implies (
        #[trigger] stats.fields@[i]).value_counts.wf() by {
            assert(stats.fields@[i].describes(records(stats.history@)));
        }
    }
    append_fields(&mut out, &stats.fields, details, stats.valid);
    out.append(paper_issues(stats).as_str());
    out
}

#[verifier::spinoff_prover]
proof fn lemma_one_layout_of_paths(
    a: Seq<&PathStats>,
    b: Seq<&PathStats>,
    batches: Seq<Seq<Sighting>>,
    min_present: nat,
    shares: Seq<String>,
)
    requires
        lists_paths(a, batches, min_present),
        lists_paths(b, batches, min_present),
    ensures
        Seq::new(a.len(), |i: int| path_as_json(*a[i], shares[i]@)) == Seq::new(
            b.len(),
            |i: int| path_as_json(*b[i], shares[i]@),
        ),
        Seq::new(a.len(), |i: int| path_on_paper(*a[i], shares[i]@)) == Seq::new(
            b.len(),
            |i: int| path_on_paper(*b[i], shares[i]@),
        ),
{
    if a.len() > 0 {
        law_one_way_to_list_paths(a, b, batches, min_present, a.len() - 1);
    }
    if b.len() > 0 {
        law_one_way_to_list_paths(b, a, batches, min_present, b.len() - 1);
    }
    assert(a.len() == b.len());
    assert forall|i: int| 0 <= i < a.len() implies #[trigger] a[i].path@ == b[i].path@
        && a[i].present == b[i].present && a[i].occurrences == b[i].occurrences && a[i].types@
        == b[i].types@ by {
        law_one_way_to_list_paths(a, b, batches, min_present, i);
    }
    assert(Seq::new(a.len(), |i: int| path_as_json(*a[i], shares[i]@)) =~= Seq::new(
        b.len(),
        |i: int| path_as_json(*b[i], shares[i]@),
    ));
    assert(Seq::new(a.len(), |i: int| path_on_paper(*a[i], shares[i]@)) =~= Seq::new(
        b.len(),
        |i: int| path_on_paper(*b[i], shares[i]@),
    ));
}

/// A schema makes one report only: listings of the same paths are laid out alike,
/// as JSON and on paper.
#[verifier::spinoff_prover]
pub proof fn law_one_report_of_a_schema(
    schema: Schema,
    a: Seq<&PathStats>,
    b: Seq<&PathStats>,
    min_present: nat,
    shares: Seq<String>,
    file: Seq<char>,
)
    requires
        lists_paths(a, schema.batches(), min_present),
        lists_paths(b, schema.batches(), min_present),
    ensures
        schema_as_json(schema, a, shares) == schema_as_json(schema, b, shares),
        schema_on_paper(schema, a, shares, file) == schema_on_paper(schema, b, shares, file),
{
    lemma_one_layout_of_paths(a, b, schema.batches(), min_present, shares);
}

#[verifier::spinoff_prover]
proof fn lemma_one_layout_of_keys(
    a: Seq<&KeyStats>,
    b: Seq<&KeyStats>,
    stats: Stats,
    percents: Seq<String>,
)
    requires
        lists_keys(a, key_batches(records(stats.history@))),
        lists_keys(b, key_batches(records(stats.history@))),
    ensures
        a.map_values(|k: &KeyStats| key_as_json(*k)) == b.map_values(
            |k: &KeyStats| key_as_json(*k),
        ),
        Seq::new(a.len(), |i: int| key_on_paper(*a[i], percents[i]@)) == Seq::new(
            b.len(),
            |i: int| key_on_paper(*b[i], percents[i]@),
        ),
{
    assert forall|i: int| 0 <= i < a.len() implies key_as_json(*a[i]) == key_as_json(*b[i])
        && key_on_paper(*a[i], percents[i]@) == key_on_paper(*b[i], percents[i]@) by {
        law_one_way_to_list_keys(a, b, key_batches(records(stats.history@)), i);
    }
    assert(a.map_values(|k: &KeyStats| key_as_json(*k)) =~= b.map_values(
        |k: &KeyStats| key_as_json(*k),
    ));
    assert(Seq::new(a.len(), |i: int| key_on_paper(*a[i], percents[i]@)) =~= Seq::new(
        b.len(),
        |i: int| key_on_paper(*b[i], percents[i]@),
    ));
}

#[verifier::spinoff_prover]
proof fn lemma_one_layout_of_values(
    a: Seq<(String, u64)>,
    b: Seq<(String, u64)>,
    names: Seq<Seq<char>>,
    n: nat,
    percents: Seq<String>,
)
    requires
        tops(a, names, n),
        tops(b, names, n),
    ensures
        values_as_json(a) == values_as_json(b),
        Seq::new(a.len(), |i: int| value_on_paper(a[i], percents[i]@)) == Seq::new(
            b.len(),
            |i: int| value_on_paper(b[i], percents[i]@),
        ),
{
    assert forall|i: int| 0 <= i < a.len() implies value_as_json(a[i]) == value_as_json(b[i])
        && value_on_paper(a[i], percents[i]@) == value_on_paper(b[i], percents[i]@) by {
        law_one_way_to_list_values(a, b, names, n, i);
    }
    assert(a.map_values(|e: (String, u64)| value_as_json(e)) =~= b.map_values(
        |e: (String, u64)| value_as_json(e),
    ));
    assert(Seq::new(a.len(), |i: int| value_on_paper(a[i], percents[i]@)) =~= Seq::new(
        b.len(),
        |i: int| value_on_paper(b[i], percents[i]@),
    ));
}

proof fn lemma_one_layout_of_lengths(
    a: Lengths,
    b: Lengths,
    values: Seq<u64>,
    p50: At,
    p90: At,
    p99: At,
)
    requires
        a.describes(values, p50, p90, p99),
        b.describes(values, p50, p90, p99),
        a.mean == b.mean,
    ensures
        a == b,
{
    law_one_percentile(a.p50, b.p50, values, p50);
    law_one_percentile(a.p90, b.p90, values, p90);
    law_one_percentile(a.p99, b.p99, values, p99);
}

/// Statistics make one JSON report only: it is settled by how many values of a
/// field are listed, by the places of the percentiles and by the mean.
#[verifier::spinoff_prover]
pub proof fn law_one_json_report_of_statistics(
    stats: Stats,
    a_keys: Seq<&KeyStats>,
    b_keys: Seq<&KeyStats>,
    a_tops: Seq<Vec<(String, u64)>>,
    b_tops: Seq<Vec<(String, u64)>>,
    n: nat,
    a_lengths: Lengths,
    b_lengths: Lengths,
    p50: At,
    p90: At,
    p99: At,
)
    requires
        lists_keys(a_keys, key_batches(records(stats.history@))),
        lists_keys(b_keys, key_batches(records(stats.history@))),
        lists_tops(a_tops, stats, n),
        lists_tops(b_tops, stats, n),
        a_lengths.describes(line_lengths(stats.history@), p50, p90, p99),
        b_lengths.describes(line_lengths(stats.history@), p50, p90, p99),
        a_lengths.mean == b_lengths.mean,
    ensures
        stats_as_json(stats, a_keys, a_tops, a_lengths) == stats_as_json(
            stats,
            b_keys,
            b_tops,
            b_lengths,
        ),
{
    let seen = records(stats.history@);
    lemma_one_layout_of_keys(a_keys, b_keys, stats, Seq::empty());
    lemma_one_layout_of_lengths(
        a_lengths,
        b_lengths,
        line_lengths(stats.history@),
        p50,
        p90,
        p99,
    );
    let fields = stats.fields@;
    assert forall|i: int| 0 <= i < fields.len() implies field_as_json(fields[i], a_tops[i]@)
        == field_as_json(fields[i], b_tops[i]@) by {
        assert(tops_of(a_tops[i]@, fields[i], seen, n));
        assert(tops_of(b_tops[i]@, fields[i], seen, n));
        lemma_one_layout_of_values(
            a_tops[i]@,
            b_tops[i]@,
            encodings(field_values(seen, fields[i].path.steps())),
            n,
            Seq::empty(),
        );
    }
    assert(Seq::new(fields.len(), |i: int| field_as_json(fields[i], a_tops[i]@)) =~= Seq::new(
        fields.len(),
        |i: int| field_as_json(fields[i], b_tops[i]@),
    ));
}

/// Two reports show a field with the same percentages.
pub open spec fn same_percents(a: FieldDetail, b: FieldDetail) -> bool {
    &&& a.percent@ == b.percent@
    &&& a.value_percents@ == b.value_percents@
}

/// Statistics make one report on paper only: besides the texts that are put in,
/// it is settled by how many values of a field are listed and by the places of
/// the percentiles.
#[verifier::spinoff_prover]
pub proof fn law_one_report_of_statistics_on_paper(
    stats: Stats,
    a_keys: Seq<&KeyStats>,
    b_keys: Seq<&KeyStats>,
    percents: Seq<String>,
    a_details: Seq<FieldDetail>,
    b_details: Seq<FieldDetail>,
    n: nat,
    a_lengths: Lengths,
    b_lengths: Lengths,
    p50: At,
    p90: At,
    p99: At,
    file: Seq<char>,
    kib: Seq<char>,
)
    requires
        lists_keys(a_keys, key_batches(records(stats.history@))),
        lists_keys(b_keys, key_batches(records(stats.history@))),
        shows_tops(a_details, stats, n),
        shows_tops(b_details, stats, n),
        forall|i: int|
            #![trigger a_details[i]]
            #![trigger b_details[i]]
            0 <= i < a_details.len() ==> same_percents(a_details[i], b_details[i]),
        a_lengths.describes(line_lengths(stats.history@), p50, p90, p99),
        b_lengths.describes(line_lengths(stats.history@), p50, p90, p99),
        a_lengths.mean == b_lengths.mean,
    ensures
        stats_on_paper(stats, a_keys, percents, a_details, a_lengths, file, kib) == stats_on_paper(
            stats,
            b_keys,
            percents,
            b_details,
            b_lengths,
            file,
            kib,
        ),
{
    let seen = records(stats.history@);
    lemma_one_layout_of_keys(a_keys, b_keys, stats, percents);
    lemma_one_layout_of_lengths(
        a_lengths,
        b_lengths,
        line_lengths(stats.history@),
        p50,
        p90,
        p99,
    );
    let fields = stats.fields@;
    assert forall|i: int| 0 <= i < fields.len() implies field_on_paper(
        fields[i],
        a_details[i],
        stats.valid,
    ) == field_on_paper(fields[i], b_details[i], stats.valid) by {
        assert(same_percents(a_details[i], b_details[i]));
        assert(tops_of(a_details[i].top@, fields[i], seen, n));
        assert(tops_of(b_details[i].top@, fields[i], seen, n));
        lemma_one_layout_of_values(
            a_details[i].top@,
            b_details[i].top@,
            encodings(field_values(seen, fields[i].path.steps())),
            n,
            a_details[i].value_percents@,
        );
    }
    assert(Seq::new(
        fields.len(),
        |i: int| field_on_paper(fields[i], a_details[i], stats.valid),
    ) =~= Seq::new(fields.len(), |i: int| field_on_paper(fields[i], b_details[i], stats.valid)));
}

/// Without its commas, a grouped number is its decimal digits.
pub proof fn law_grouping_keeps_the_digits(n: nat)
    ensures
        grouped(n).filter(|c: char| c != ',') == decimal(n),
    decreases n,
{
    broadcast use Seq::filter_distributes_over_add;

    let keep = |c: char| c != ',';
    if n < 1000 {
        lemma_decimal_is_plain(n);
        lemma_filter_all(decimal(n), keep);
    } else {
        law_grouping_keeps_the_digits(n / 1000);
        let tail = three_digits(n);
        lemma_filter_all(tail, keep);
        assert(seq![','].filter(keep) =~= Seq::empty()) by {
            reveal(Seq::filter);
            assert(seq![','].drop_last() =~= Seq::empty());
            assert(seq![','].last() == ',');
            assert(seq![','].drop_last().filter(keep) =~= Seq::empty());
        }
        assert(decimal(n) =~= decimal(n / 1000) + tail) by {
            assert(decimal(n) == decimal(n / 10).push(digit_char(n % 10)));
            assert(decimal(n / 10) == decimal(n / 10 / 10).push(digit_char(n / 10 % 10)));
            assert(decimal(n / 10 / 10) == decimal(n / 10 / 10 / 10).push(
                digit_char(n / 10 / 10 % 10),
            ));
        }
        assert(grouped(n).filter(keep) =~= decimal(n));
    }
}

proof fn lemma_decimal_is_plain(n: nat)
    ensures
        forall|k: int| 0 <= k < decimal(n).len() ==> #[trigger] decimal(n)[k] != ',',
    decreases n,
{
    assert(digit_char(n % 10) as u32 == 0x30 + n % 10);
    if n >= 10 {
        lemma_decimal_is_plain(n / 10);
        assert forall|k: int| 0 <= k < decimal(n).len() implies #[trigger] decimal(n)[k] != ',' by {
            if k < decimal(n / 10).len() {
                assert(decimal(n)[k] == decimal(n / 10)[k]);
            }
        }
    }
}

proof fn lemma_filter_all(s: Seq<char>, keep: spec_fn(char) -> bool)
    requires
        forall|k: int| 0 <= k < s.len() ==> keep(#[trigger] s[k]),
    ensures
        s.filter(keep) == s,
    decreases s.len(),
{
    reveal(Seq::filter);
    if s.len() > 0 {
        assert forall|k: int| 0 <= k < s.drop_last().len() implies keep(
            #[trigger] s.drop_last()[k],
        ) by {
            assert(s.drop_last()[k] == s[k]);
        }
        lemma_filter_all(s.drop_last(), keep);
        assert(s =~= s.drop_last().push(s.last()));
    }
}

/// The figures of some lengths: how many there are, the smallest and the largest, and
/// the percentiles at the three places, each at its own; there are none of nothing.
pub proof fn law_figures_are_of_the_lengths(
    l: Lengths,
    values: Seq<u64>,
    p50: At,
    p90: At,
    p99: At,
)
    requires
        l.describes(values, p50, p90, p99),
    ensures
        l.count == values.len(),
        values.len() == 0 ==> l.min is None && l.max is None && l.p50 is None && l.p90 is None
            && l.p99 is None,
        values.len() > 0 ==> {
            &&& l.min is Some && values.contains(l.min->0)
            &&& l.max is Some && values.contains(l.max->0)
            &&& l.p50 is Some && l.p90 is Some && l.p99 is Some
        },
        forall|i: int|
            0 <= i < values.len() ==> l.min->0 <= #[trigger] values[i] && values[i] <= l.max->0,
        is_percentile(l.p50, values, p50),
        is_percentile(l.p90, values, p90),
        is_percentile(l.p99, values, p99),
{
    if values.len() > 0 {
        law_extremes_are_exact(values);
    }
}

/// The frequent values of a field are those of all records: each is counted as often as
/// the path reaches a value with that encoding, whatever record it is in. No more are
/// listed than asked for, and fewer only if there are no more.
pub proof fn law_frequent_values_are_of_every_record(
    stats: Stats,
    tops: Seq<Vec<(String, u64)>>,
    n: nat,
    i: int,
)
    requires
        lists_tops(tops, stats, n),
        0 <= i < tops.len(),
    ensures
        tops.len() == stats.fields@.len(),
        tops[i]@.len() <= n,
        ({
            let steps = stats.fields@[i].path.steps();
            let texts = records(stats.history@).map_values(
                |record: Json| reached(record, steps),
            ).flatten_alt().map_values(|value: Json| encoding(value));
            &&& tops[i]@.len() < n && texts.to_set().len() <= 10_000 ==> tops[i]@.len()
                == texts.to_set().len()
            &&& forall|k: int|
                0 <= k < tops[i]@.len() ==> (#[trigger] tops[i]@[k]).1 == texts.filter(
                    |text: Seq<char>| text == tops[i]@[k].0@,
                ).len()
        }),
        forall|j: int, k: int|
            0 <= j < k < tops[i]@.len() ==> (#[trigger] tops[i]@[j]).1 >= (
            #[trigger] tops[i]@[k]).1,
{
    let steps = stats.fields@[i].path.steps();
    let seen = records(stats.history@);
    law_field_values_come_from_every_record(seen, steps);
    let values = field_values(seen, steps);
    assert(tops_of(tops[i]@, stats.fields@[i], seen, n));
    law_frequent_values_are_listed_first(tops[i]@, encodings(values), n);
    assert(encodings(values) =~= values.map_values(|value: Json| encoding(value)));
    let texts = encodings(values);
    assert forall|k: int| 0 <= k < tops[i]@.len() implies (#[trigger] tops[i]@[k]).1
        == texts.filter(|text: Seq<char>| text == tops[i]@[k].0@).len() by {
        assert((|text: Seq<char>| text == tops[i]@[k].0@) =~= (|name: Seq<char>|
            name == tops[i]@[k].0@));
    }
}

/// What a paper report shows of a field's frequent values is of all records too.
pub proof fn law_shown_values_are_of_every_record(
    stats: Stats,
    details: Seq<FieldDetail>,
    n: nat,
    i: int,
)
    requires
        shows_tops(details, stats, n),
        0 <= i < details.len(),
    ensures
        details.len() == stats.fields@.len(),
        details[i].top@.len() <= n,
        ({
            let steps = stats.fields@[i].path.steps();
            let texts = records(stats.history@).map_values(
                |record: Json| reached(record, steps),
            ).flatten_alt().map_values(|value: Json| encoding(value));
            forall|k: int|
                0 <= k < details[i].top@.len() ==> (#[trigger] details[i].top@[k]).1
                    == texts.filter(|text: Seq<char>| text == details[i].top@[k].0@).len()
        }),
{
    let steps = stats.fields@[i].path.steps();
    let seen = records(stats.history@);
    law_field_values_come_from_every_record(seen, steps);
    let values = field_values(seen, steps);
    assert(tops_of(details[i].top@, stats.fields@[i], seen, n));
    law_frequent_values_are_listed_first(details[i].top@, encodings(values), n);
    assert(encodings(values) =~= values.map_values(|value: Json| encoding(value)));
    let texts = encodings(values);
    assert forall|k: int| 0 <= k < details[i].top@.len() implies (
    #[trigger] details[i].top@[k]).1 == texts.filter(
        |text: Seq<char>| text == details[i].top@[k].0@,
    ).len() by {
        assert((|text: Seq<char>| text == details[i].top@[k].0@) =~= (|name: Seq<char>|
            name == details[i].top@[k].0@));
    }
}

} // verus!
