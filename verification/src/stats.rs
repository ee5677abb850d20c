//! Single-pass health statistics over JSONL input.
//!
//! For every line [`Stats`] does exactly the work needed to answer "is this
//! dataset healthy": did it parse, what shape is the top level value, which
//! keys does it have and with what types, and, for any [`FieldPath`] the caller
//! asked about, how often is that field present and what values does it take.
//! Nothing here holds more than one line's worth of JSON at a time; running
//! totals live in a [`Histogram`] and a handful of bounded tables.

use crate::catalog::{
    all_sightings, batches_with, extended, kinds_at, last_with, law_batches_with, lemma_extended,
    lemma_kinds_at_len, lemma_kinds_concat, lemma_open_batch, lemma_unseen, names_of, Sighting,
};
use crate::hist::Histogram;
use crate::json::grammar::MAX_DEPTH;
use crate::json::laws::{
    law_encodings_tell_values_apart, law_what_is_read_can_be_written, lemma_writable_deeper,
    writable,
};
use crate::json::render::encoding;
use crate::json::value::{
    items_size, jsons, kind_name, kind_of, law_first_member_is_found, lemma_items_count,
    lemma_members_count, members_size, size, Json, Kind, Value,
};
use crate::lines::{
    law_raw_lengths_cover_the_input, lemma_raw_line, lines_after, lines_of, raw_line_len,
    total_raw, Line, LineModel, LineReader,
};
use crate::path::{
    law_only_wildcards_fan_out, law_reached_values_fit_the_record, place_of, reached, step_into,
    step_into_all, FieldPath, Step,
};
use crate::record::{
    all_sound, blanks, examine, finding, law_every_line_counts_once, law_input_bounds_its_contents,
    law_lines_are_taken_one_by_one, law_problems_are_in_line_order, lengths, problems, records, sound, Finding, Found, Problem,
};
use crate::tally::{
    distinct, first_met_before, law_distinct, law_distinct_items_are_in_the_order_met,
    law_items_are_tracked_while_there_is_room, law_occurrences_of_tracked_items, law_times,
    law_times_counts_equal_items, lemma_insert_items, lemma_in_text_order, lemma_one_text_order, lemma_same_items_len, lemma_same_len_items,
    lemma_tracked_items, lemma_tracked_push, occurrences, ranking, ranks_before, same_items, texts,
    times, tracked_items, turned_away, Table,
};
use crate::text::{law_order_goes_by_the_first_difference, law_text_order, text_before};
use vstd::prelude::*;
use vstd::utf8::{decode_utf8, encode_utf8};

verus! {

/// Top level keys tracked before the table stops growing.
///
/// Datasets with a runaway number of distinct top level keys are usually
/// malformed (a schema-less blob per line, an accidental per-record UUID key)
/// rather than something worth cataloguing exhaustively, so the table is
/// bounded and [`Stats::keys_capped`] says when it stopped.
pub const MAX_KEYS: usize = 512;

/// Distinct values tracked per profiled field before its table stops growing.
/// See [`FieldStats::values_capped`].
pub const MAX_FIELD_VALUES: usize = 10_000;

/// The distinct types of some values in first-seen order, with their numbers.
pub open spec fn counted(kinds: Seq<Kind>) -> Seq<(Kind, nat)> {
    Seq::new(
        distinct(kinds).len(),
        |i: int| (distinct(kinds)[i], times(kinds, distinct(kinds)[i])),
    )
}

/// Counts, added up.
pub open spec fn count_sum(counts: Seq<(Kind, nat)>) -> nat
    decreases counts.len(),
{
    if counts.len() == 0 {
        0
    } else {
        count_sum(counts.drop_last()) + counts.last().1
    }
}

/// Counts as numbers.
spec fn pairs_of(counts: Seq<(Kind, u64)>) -> Seq<(Kind, nat)> {
    Seq::new(counts.len(), |i: int| (counts[i].0, counts[i].1 as nat))
}

/// A count of how many times each JSON type has been seen.
#[derive(Debug)]
pub struct TypeCounts {
    counts: Vec<(Kind, u64)>,
}

impl Clone for TypeCounts {
    fn clone(&self) -> (copy: Self)
        ensures
            copy@ == self@,
    {
        proof {
            use_type_invariant(&*self);
        }
        let mut counts: Vec<(Kind, u64)> = Vec::new();
        let mut i: usize = 0;
        while i < self.counts.len()
            invariant
                i <= self.counts@.len(),
                counts@ == self.counts@.take(i as int),
            decreases self.counts@.len() - i,
        {
            counts.push(self.counts[i]);
            assert(counts@ =~= self.counts@.take(i + 1));
            i = i + 1;
        }
        assert(counts@ =~= self.counts@);
        TypeCounts { counts }
    }
}

impl View for TypeCounts {
    type V = Seq<(Kind, nat)>;

    closed spec fn view(&self) -> Seq<(Kind, nat)> {
        pairs_of(self.counts@)
    }
}

impl Default for TypeCounts {
    fn default() -> (types: Self)
        ensures
            types.tallies(Seq::empty()),
    {
        let counts: Vec<(Kind, u64)> = Vec::new();
        assert(pairs_of(counts@) =~= counted(Seq::empty()));
        assert(count_sum(pairs_of(counts@)) == 0);
        TypeCounts { counts }
    }
}

impl TypeCounts {
    /// The counts add up to a number that fits 64 bits.
    #[verifier::type_invariant]
    spec fn fits(self) -> bool {
        count_sum(self@) <= u64::MAX
    }

    /// The counts are those of the given types, in the order of recording.
    pub open spec fn tallies(&self, kinds: Seq<Kind>) -> bool {
        self@ == counted(kinds)
    }

    pub(crate) fn record(&mut self, kind: Kind, Ghost(kinds): Ghost<Seq<Kind>>)
        requires
            old(self).tallies(kinds),
            kinds.len() < u64::MAX,
        ensures
            final(self).tallies(kinds.push(kind)),
    {
        let ghost more = kinds.push(kind);
        let ghost before = self@;
        let mut counts: Vec<(Kind, u64)> = Vec::new();
        assert(pairs_of(counts@) =~= Seq::empty());
        std::mem::swap(&mut counts, &mut self.counts);
        proof {
            assert(more.drop_last() =~= kinds);
            law_distinct(kinds);
            law_counts_add_up(more);
        }
        let mut i: usize = 0;
        while i < counts.len()
            invariant
                i <= counts@.len(),
                before == pairs_of(counts@),
                before == counted(kinds),
                self.counts@.len() == 0,
                kinds.len() < u64::MAX,
                more == kinds.push(kind),
                more.drop_last() == kinds,
                count_sum(counted(more)) <= u64::MAX,
                distinct(kinds).no_duplicates(),
                forall|k: int| 0 <= k < i ==> #[trigger] distinct(kinds)[k] != kind,
            decreases counts@.len() - i,
        {
            let (seen, count): (Kind, u64) = counts[i];
            assert(before.len() == distinct(kinds).len());
            assert(before[i as int] == (seen, count as nat));
            assert(counted(kinds)[i as int] == (seen, times(kinds, seen)));
            if seen == kind {
                proof {
                    law_times(kinds, kind);
                }
                counts.set(i, (seen, count + 1));
                proof {
                    assert(distinct(kinds)[i as int] == kind);
                    assert(distinct(kinds).contains(kind));
                    assert forall|k: int| 0 <= k < distinct(more).len() implies pairs_of(
                        counts@,
                    )[k] == #[trigger] counted(more)[k] by {
                        assert(before[k] == counted(kinds)[k]);
                        assert(k != i ==> distinct(kinds)[k] != kind);
                    }
                    assert(pairs_of(counts@) =~= counted(more));
                }
                self.counts = counts;
                return;
            }
            assert(distinct(kinds)[i as int] == seen);
            i = i + 1;
        }
        assert(before.len() == distinct(kinds).len());
        counts.push((kind, 1));
        proof {
            assert(!distinct(kinds).contains(kind));
            law_times(kinds, kind);
            assert forall|k: int| 0 <= k < distinct(more).len() implies pairs_of(counts@)[k]
                == #[trigger] counted(more)[k] by {
                if k < distinct(kinds).len() {
                    assert(before[k] == counted(kinds)[k]);
                    assert(distinct(kinds)[k] != kind);
                }
            }
            assert(pairs_of(counts@) =~= counted(more));
        }
        self.counts = counts;
    }

    /// The recorded types and their counts, in first-seen order.
    pub fn iter(&self) -> (pairs: Vec<(&'static str, u64)>)
        ensures
            pairs@.len() == self@.len(),
            forall|i: int|
                0 <= i < pairs@.len() ==> (#[trigger] pairs@[i]).0@ == kind_name(self@[i].0)
                    && pairs@[i].1 == self@[i].1,
    {
        let mut pairs: Vec<(&'static str, u64)> = Vec::new();
        let mut i: usize = 0;
        while i < self.counts.len()
            invariant
                i <= self.counts@.len(),
                pairs@.len() == i,
                forall|k: int|
                    0 <= k < i ==> (#[trigger] pairs@[k]).0@ == kind_name(self@[k].0)
                        && pairs@[k].1 == self@[k].1,
            decreases self.counts@.len() - i,
        {
            let (kind, count): (Kind, u64) = self.counts[i];
            pairs.push((kind.name(), count));
            i = i + 1;
        }
        pairs
    }

    /// The total number of values recorded, across every type.
    pub fn total(&self) -> (n: u64)
        ensures
            n == count_sum(self@),
    {
        proof {
            use_type_invariant(&*self);
        }
        let mut n: u64 = 0;
        let mut i: usize = 0;
        assert(count_sum(self@.take(0)) == 0);
        while i < self.counts.len()
            invariant
                i <= self.counts@.len(),
                n == count_sum(self@.take(i as int)),
                count_sum(self@) <= u64::MAX,
            decreases self.counts@.len() - i,
        {
            proof {
                assert(self@.take(i + 1).drop_last() =~= self@.take(i as int));
                lemma_count_sum_grows(self@, i + 1);
            }
            n = n + self.counts[i].1;
            i = i + 1;
        }
        assert(self@.take(i as int) =~= self@);
        n
    }
}

proof fn lemma_count_sum_grows(counts: Seq<(Kind, nat)>, i: int)
    requires
        0 <= i <= counts.len(),
    ensures
        count_sum(counts.take(i)) <= count_sum(counts),
    decreases counts.len() - i,
{
    if i == counts.len() {
        assert(counts.take(i) =~= counts);
    } else {
        lemma_count_sum_grows(counts, i + 1);
        assert(counts.take(i + 1).drop_last() =~= counts.take(i));
    }
}

/// Counts that change in one place.
proof fn lemma_count_sum_bump(a: Seq<(Kind, nat)>, b: Seq<(Kind, nat)>, at: int)
    requires
        a.len() == b.len(),
        0 <= at < a.len(),
        b[at].1 == a[at].1 + 1,
        forall|k: int| 0 <= k < a.len() && k != at ==> (#[trigger] a[k]).1 == b[k].1,
    ensures
        count_sum(b) == count_sum(a) + 1,
    decreases a.len(),
{
    if at < a.len() - 1 {
        assert(a[a.len() - 1].1 == b[a.len() - 1].1);
        lemma_count_sum_bump(a.drop_last(), b.drop_last(), at);
    } else {
        lemma_count_sum_same(a.drop_last(), b.drop_last());
    }
}

proof fn lemma_count_sum_same(a: Seq<(Kind, nat)>, b: Seq<(Kind, nat)>)
    requires
        a.len() == b.len(),
        forall|k: int| 0 <= k < a.len() ==> (#[trigger] a[k]).1 == b[k].1,
    ensures
        count_sum(b) == count_sum(a),
    decreases a.len(),
{
    if a.len() > 0 {
        assert(a[a.len() - 1].1 == b[a.len() - 1].1);
        lemma_count_sum_same(a.drop_last(), b.drop_last());
    }
}

/// The counts of some values add up to the number of values.
pub proof fn law_counts_add_up(kinds: Seq<Kind>)
    ensures
        count_sum(counted(kinds)) == kinds.len(),
    decreases kinds.len(),
{
    let now = counted(kinds);
    if kinds.len() == 0 {
        assert(now.len() == 0);
    } else {
        let head = kinds.drop_last();
        let kind = kinds.last();
        let before = counted(head);
        law_counts_add_up(head);
        law_distinct(head);
        if distinct(head).contains(kind) {
            let at = choose|k: int| 0 <= k < distinct(head).len() && distinct(head)[k] == kind;
            assert forall|k: int| 0 <= k < before.len() && k != at implies (#[trigger] before[k]).1
                == now[k].1 by {
                assert(distinct(head)[k] != kind);
            }
            lemma_count_sum_bump(before, now, at);
        } else {
            law_times(head, kind);
            assert forall|k: int| 0 <= k < before.len() implies (#[trigger] before[k]).1
                == now.drop_last()[k].1 by {
                assert(distinct(head)[k] != kind) by {
                    if distinct(head)[k] == kind {
                        assert(distinct(head).contains(kind));
                    }
                }
            }
            lemma_count_sum_same(before, now.drop_last());
        }
    }
}

/// One broken line: where it is and why it did not parse.
#[derive(Debug, Clone, PartialEq, Eq)]
pub struct Issue {
    /// 1-based line number.
    pub line: u64,
    /// 1-based byte column within the line.
    pub column: usize,
    /// A short, lowercase description of the problem.
    pub reason: String,
}

impl View for Issue {
    type V = Problem;

    open spec fn view(&self) -> Problem {
        Problem { line: self.line as nat, column: self.column as nat, reason: self.reason@ }
    }
}

/// Occurrence and type counts for one top level object key.
#[derive(Debug, Clone)]
pub struct KeyStats {
    /// The key name.
    pub key: String,
    /// How many valid top-level objects contained this key.
    pub count: u64,
    /// The types of the values seen at this key.
    pub types: TypeCounts,
    /// The last record that contained this key, counting from 1.
    pub last_record: u64,
}

impl KeyStats {
    /// What is known of the key follows from the members of some records, a
    /// batch for each.
    pub open spec fn describes(&self, batches: Seq<Seq<Sighting>>) -> bool {
        &&& self.count == batches_with(batches, self.key@)
        &&& self.types.tallies(kinds_at(all_sightings(batches), self.key@))
        &&& self.last_record == last_with(batches, self.key@)
    }
}

/// The keys of a record that is an object, with the types of their values.
pub open spec fn member_sightings(json: Json) -> Seq<Sighting> {
    match json {
        Json::Object(members) => sightings_of(members),
        _ => Seq::empty(),
    }
}

/// The keys of some members, with the types of their values.
pub open spec fn sightings_of(members: Seq<(Seq<char>, Json)>) -> Seq<Sighting> {
    members.map_values(|m: (Seq<char>, Json)| Sighting { name: m.0, kind: kind_of(m.1) })
}

/// The keys of some records, a batch for each.
pub open spec fn key_batches(records: Seq<Json>) -> Seq<Seq<Sighting>> {
    records.map_values(|r: Json| member_sightings(r))
}

/// A table tracks the keys of some records, up to [`MAX_KEYS`] of them.
pub open spec fn tracks_keys(table: Table<KeyStats>, batches: Seq<Seq<Sighting>>) -> bool {
    &&& table.wf()
    &&& same_items(
        table.names(),
        tracked_items(names_of(all_sightings(batches)), MAX_KEYS as nat),
    )
    &&& forall|i: int|
        0 <= i < table.values@.len() ==> (#[trigger] table.values@[i]).key@ == table.names()[i]
            && table.values@[i].describes(batches)
}

/// A listing holds every tracked key once, in order.
pub open spec fn lists_keys(keys: Seq<&KeyStats>, batches: Seq<Seq<Sighting>>) -> bool {
    let listed = tracked_items(names_of(all_sightings(batches)), MAX_KEYS as nat);
    &&& keys.len() == listed.len()
    &&& forall|i: int|
        0 <= i < keys.len() ==> (#[trigger] keys[i]).describes(batches) && listed.contains(
            keys[i].key@,
        )
    &&& forall|i: int, j: int|
        0 <= i < j < keys.len() ==> listed_first(
            (#[trigger] keys[i]).key@,
            keys[i].count as nat,
            (#[trigger] keys[j]).key@,
            keys[j].count as nat,
        )
    &&& forall|name: Seq<char>| #[trigger]
        listed.contains(name) ==> exists|i: int|
            0 <= i < keys.len() && (#[trigger] keys[i]).key@ == name
}

/// Takes in one key, seen in the record with the given number. The result says
/// whether the table had no room for it.
fn record_key(
    table: &mut Table<KeyStats>,
    key: &str,
    kind: Kind,
    record: u64,
    Ghost(batches): Ghost<Seq<Seq<Sighting>>>,
) -> (full: bool)
    requires
        tracks_keys(*old(table), batches),
        batches.len() == record > 0,
        all_sightings(batches).len() < u64::MAX,
    ensures
        tracks_keys(*final(table), extended(batches, Sighting { name: key@, kind })),
        turned_away(
            names_of(all_sightings(extended(batches, Sighting { name: key@, kind }))),
            MAX_KEYS as nat,
        ) == (turned_away(names_of(all_sightings(batches)), MAX_KEYS as nat) || full),
{
    let ghost sighting = Sighting { name: key@, kind };
    let ghost more = extended(batches, sighting);
    let ghost names = names_of(all_sightings(batches));
    let ghost listed = tracked_items(names, MAX_KEYS as nat);
    proof {
        lemma_extended(batches, sighting, key@);
        lemma_tracked_push(names, MAX_KEYS as nat, key@);
        lemma_tracked_items(names, MAX_KEYS as nat);
        lemma_kinds_at_len(all_sightings(batches), key@);
        law_batches_with(batches, key@);
    }
    match table.find(key) {
        Ok(at) => {
            let ghost before = *table;
            let old_count: u64 = table.values[at].count;
            let old_last: u64 = table.values[at].last_record;
            let ghost kinds = kinds_at(all_sightings(batches), key@);
            assert(table.values@[at as int].key@ == key@);
            assert(table.names().contains(key@));
            assert(listed.contains(key@));
            table.values[at].types.record(kind, Ghost(kinds));
            if old_last != record {
                table.values[at].count = old_count + 1;
                table.values[at].last_record = record;
            }
            proof {
                assert(table.names() =~= before.names());
                assert forall|i: int| 0 <= i < table.values@.len() implies (
                #[trigger] table.values@[i]).key@ == table.names()[i]
                    && table.values@[i].describes(more) by {
                    if i != at {
                        lemma_in_text_order(before.names());
                        assert(before.names()[i] != before.names()[at as int]);
                        assert(table.values@[i] == before.values@[i]);
                        assert(before.values@[i].describes(batches));
                        assert(before.values@[i].key@ == before.names()[i]);
                        lemma_extended(batches, sighting, before.names()[i]);
                    } else {
                        assert(before.values@[i].describes(batches));
                        assert(table.values@[i].key@ == key@);
                        assert(table.values@[i].types.tallies(kinds.push(kind)));
                    }
                }
            }
            false
        },
        Err(at) => {
            proof {
                lemma_in_text_order(table.names());
                lemma_same_items_len(table.names(), listed);
                assert(!listed.contains(key@));
            }
            if table.len() < MAX_KEYS {
                let mut types: TypeCounts = TypeCounts::default();
                types.record(kind, Ghost(Seq::empty()));
                let ghost before = *table;
                let entry = KeyStats { key: key.to_owned(), count: 1, types, last_record: record };
                proof {
                    lemma_unseen(batches, key@);
                    lemma_insert_items(before.names(), at as int, key@, listed);
                    assert(entry.describes(more));
                }
                table.insert(at, key.to_owned(), entry);
                proof {
                    assert forall|i: int| 0 <= i < table.values@.len() implies (
                    #[trigger] table.values@[i]).key@ == table.names()[i]
                        && table.values@[i].describes(more) by {
                        if i != at {
                            let i0 = if i < at {
                                i
                            } else {
                                i - 1
                            };
                            assert(table.values@[i] == before.values@[i0]);
                            assert(table.names()[i] == before.names()[i0]);
                            assert(before.values@[i0].describes(batches));
                            assert(before.names().contains(before.names()[i0]));
                            assert(before.names()[i0] != key@);
                            assert(before.values@[i0].key@ == before.names()[i0]);
                            lemma_extended(batches, sighting, before.names()[i0]);
                        }
                    }
                }
                false
            } else {
                proof {
                    assert forall|i: int| 0 <= i < table.values@.len() implies (
                    #[trigger] table.values@[i]).key@ == table.names()[i]
                        && table.values@[i].describes(more) by {
                        assert(table.values@[i].describes(batches));
                        assert(table.names().contains(table.names()[i]));
                        assert(table.names()[i] != key@);
                        lemma_extended(batches, sighting, table.names()[i]);
                    }
                }
                true
            }
        },
    }
}

/// Takes in the keys of one record, the one with the given number. The result
/// says whether the table had no room for some of them.
fn record_keys(
    table: &mut Table<KeyStats>,
    members: &Vec<(String, Value)>,
    record: u64,
    Ghost(batches): Ghost<Seq<Seq<Sighting>>>,
    Ghost(model): Ghost<Seq<(Seq<char>, Json)>>,
) -> (full: bool)
    requires
        tracks_keys(*old(table), batches),
        batches.len() + 1 == record,
        model.len() == members@.len(),
        forall|i: int|
            0 <= i < model.len() ==> #[trigger] model[i] == (members@[i].0@, members@[i].1.json()),
        all_sightings(batches).len() + model.len() <= u64::MAX,
    ensures
        tracks_keys(*final(table), batches.push(sightings_of(model))),
        turned_away(
            names_of(all_sightings(batches.push(sightings_of(model)))),
            MAX_KEYS as nat,
        ) == (turned_away(names_of(all_sightings(batches)), MAX_KEYS as nat) || full),
{
    let ghost seen = sightings_of(model);
    let ghost mut now = batches.push(Seq::empty());
    let mut full: bool = false;
    proof {
        lemma_tracks_open_batch(*table, batches);
        lemma_open_batch(batches, Seq::empty());
        assert(seen.take(0) =~= Seq::empty());
    }
    let mut i: usize = 0;
    while i < members.len()
        invariant
            i <= members@.len(),
            model.len() == members@.len(),
            forall|k: int|
                0 <= k < model.len() ==> #[trigger] model[k] == (
                    members@[k].0@,
                    members@[k].1.json(),
                ),
            seen == sightings_of(model),
            now == batches.push(seen.take(i as int)),
            batches.len() + 1 == record,
            tracks_keys(*table, now),
            all_sightings(now).len() == all_sightings(batches).len() + i,
            all_sightings(batches).len() + model.len() <= u64::MAX,
            turned_away(names_of(all_sightings(now)), MAX_KEYS as nat) == (turned_away(
                names_of(all_sightings(batches)),
                MAX_KEYS as nat,
            ) || full),
        decreases members@.len() - i,
    {
        let ghost sighting = seen[i as int];
        assert(model[i as int] == (members@[i as int].0@, members@[i as int].1.json()));
        if record_key(
            table,
            members[i].0.as_str(),
            members[i].1.kind(),
            record,
            Ghost(now),
        ) {
            full = true;
        }
        proof {
            lemma_extended(now, sighting, Seq::empty());
            assert(now.drop_last() =~= batches);
            assert(seen.take(i as int).push(sighting) =~= seen.take(i + 1));
            now = batches.push(seen.take(i + 1));
        }
        i = i + 1;
    }
    assert(seen.take(i as int) =~= seen);
    full
}

/// A table keeps up with a record that has no keys.
proof fn lemma_tracks_open_batch(table: Table<KeyStats>, batches: Seq<Seq<Sighting>>)
    requires
        tracks_keys(table, batches),
    ensures
        tracks_keys(table, batches.push(Seq::empty())),
{
    let more = batches.push(Seq::empty());
    lemma_open_batch(batches, Seq::empty());
    assert forall|i: int| 0 <= i < table.values@.len() implies (#[trigger] table.values@[i]).key@
        == table.names()[i] && table.values@[i].describes(more) by {
        lemma_open_batch(batches, table.values@[i].key@);
    }
}

/// The values that a path reaches in some records, in order.
pub open spec fn field_values(records: Seq<Json>, steps: Seq<Step>) -> Seq<Json>
    decreases records.len(),
{
    if records.len() == 0 {
        Seq::empty()
    } else {
        field_values(records.drop_last(), steps) + reached(records.last(), steps)
    }
}

/// In how many of some records a path reaches a value.
pub open spec fn present_in(records: Seq<Json>, steps: Seq<Step>) -> nat
    decreases records.len(),
{
    if records.len() == 0 {
        0
    } else if reached(records.last(), steps).len() > 0 {
        present_in(records.drop_last(), steps) + 1
    } else {
        present_in(records.drop_last(), steps)
    }
}

/// The types of some values.
pub open spec fn kinds_of(values: Seq<Json>) -> Seq<Kind> {
    values.map_values(|v: Json| kind_of(v))
}

/// The compact JSON encodings of some values.
pub open spec fn encodings(values: Seq<Json>) -> Seq<Seq<char>> {
    values.map_values(|v: Json| encoding(v))
}

/// A table tracks texts and how often each occurs, up to [`MAX_FIELD_VALUES`]
/// of them.
pub open spec fn tracks_values(table: Table<u64>, names: Seq<Seq<char>>) -> bool {
    &&& table.wf()
    &&& same_items(table.names(), tracked_items(names, MAX_FIELD_VALUES as nat))
    &&& forall|i: int|
        0 <= i < table.values@.len() ==> #[trigger] table.values@[i] == times(
            names,
            table.names()[i],
        )
}

/// Takes in one text. The result says whether the table had no room for it.
fn count_value(
    table: &mut Table<u64>,
    rendered: String,
    Ghost(names): Ghost<Seq<Seq<char>>>,
) -> (full: bool)
    requires
        tracks_values(*old(table), names),
        names.len() < u64::MAX,
    ensures
        tracks_values(*final(table), names.push(rendered@)),
        turned_away(names.push(rendered@), MAX_FIELD_VALUES as nat) == (turned_away(
            names,
            MAX_FIELD_VALUES as nat,
        ) || full),
{
    let ghost name = rendered@;
    let ghost more = names.push(name);
    let ghost listed = tracked_items(names, MAX_FIELD_VALUES as nat);
    proof {
        lemma_tracked_push(names, MAX_FIELD_VALUES as nat, name);
        lemma_tracked_items(names, MAX_FIELD_VALUES as nat);
        law_times(names, name);
        assert(more.drop_last() =~= names);
        lemma_in_text_order(table.names());
    }
    match table.find(rendered.as_str()) {
        Ok(at) => {
            let ghost before = *table;
            let count: u64 = table.values[at];
            assert(before.values@[at as int] == times(names, before.names()[at as int]));
            assert(table.names().contains(name));
            assert(listed.contains(name));
            table.values.set(at, count + 1);
            proof {
                assert(table.names() =~= before.names());
                assert forall|i: int|
                    0 <= i < table.values@.len() implies #[trigger] table.values@[i] == times(
                    more,
                    table.names()[i],
                ) by {
                    if i != at {
                        assert(before.names()[i] != before.names()[at as int]);
                        assert(before.values@[i] == times(names, before.names()[i]));
                    }
                }
            }
            false
        },
        Err(at) => {
            proof {
                lemma_same_items_len(table.names(), listed);
                assert(!listed.contains(name));
            }
            if table.len() < MAX_FIELD_VALUES {
                let ghost before = *table;
                proof {
                    lemma_insert_items(before.names(), at as int, name, listed);
                }
                table.insert(at, rendered, 1);
                proof {
                    assert forall|i: int|
                        0 <= i < table.values@.len() implies #[trigger] table.values@[i] == times(
                        more,
                        table.names()[i],
                    ) by {
                        if i != at {
                            let i0 = if i < at {
                                i
                            } else {
                                i - 1
                            };
                            assert(table.names()[i] == before.names()[i0]);
                            assert(before.names().contains(before.names()[i0]));
                            assert(before.values@[i0] == times(names, before.names()[i0]));
                        }
                    }
                }
                false
            } else {
                proof {
                    assert forall|i: int|
                        0 <= i < table.values@.len() implies #[trigger] table.values@[i] == times(
                        more,
                        table.names()[i],
                    ) by {
                        assert(table.names().contains(table.names()[i]));
                    }
                }
                true
            }
        },
    }
}

/// In a listing, the more frequent text comes first; of equally frequent ones,
/// the first in byte order.
pub open spec fn listed_first(a: Seq<char>, a_count: nat, b: Seq<char>, b_count: nat) -> bool {
    a_count > b_count || (a_count == b_count && text_before(a, b))
}

/// A listing holds a text.
pub open spec fn tops_hold(top: Seq<(String, u64)>, name: Seq<char>) -> bool {
    exists|i: int| 0 <= i < top.len() && (#[trigger] top[i]).0@ == name
}

/// A listing holds the `n` most frequent of the tracked texts with their
/// counts, or all of them if there are no more: they are in order, and any
/// other tracked text would come after them.
pub open spec fn tops(top: Seq<(String, u64)>, names: Seq<Seq<char>>, n: nat) -> bool {
    let listed = tracked_items(names, MAX_FIELD_VALUES as nat);
    &&& top.len() == if n < listed.len() {
        n
    } else {
        listed.len()
    }
    &&& forall|i: int|
        0 <= i < top.len() ==> listed.contains((#[trigger] top[i]).0@) && top[i].1 == times(
            names,
            top[i].0@,
        )
    &&& forall|i: int, j: int|
        0 <= i < j < top.len() ==> listed_first(
            (#[trigger] top[i]).0@,
            top[i].1 as nat,
            (#[trigger] top[j]).0@,
            top[j].1 as nat,
        )
    &&& forall|name: Seq<char>, i: int|
        #![trigger listed.contains(name), top[i]]
        listed.contains(name) && 0 <= i < top.len() ==> listed_first(
            top[i].0@,
            top[i].1 as nat,
            name,
            times(names, name),
        ) || tops_hold(top, name)
}

/// Presence, type and value-distribution stats for one profiled [`FieldPath`].
#[derive(Debug, Clone)]
pub struct FieldStats {
    /// The path this entry profiles.
    pub path: FieldPath,
    /// Records in which the path resolved to at least one value.
    pub present: u64,
    /// Total values resolved (more than `present` when the path fans out
    /// through a wildcard).
    pub values: u64,
    /// The types of every resolved value.
    pub types: TypeCounts,
    /// True once distinct value tracking hit [`MAX_FIELD_VALUES`] and further
    /// distinct values stopped being counted individually.
    pub values_capped: bool,
    /// The tracked values, as their compact JSON encoding, and how often each
    /// occurs.
    pub value_counts: Table<u64>,
}

impl FieldStats {
    /// The values counted are the given ones, in order.
    pub open spec fn counts(&self, values: Seq<Json>) -> bool {
        &&& self.values == values.len()
        &&& self.types.tallies(kinds_of(values))
        &&& tracks_values(self.value_counts, encodings(values))
        &&& self.values_capped == turned_away(encodings(values), MAX_FIELD_VALUES as nat)
    }

    /// What is known of the field follows from the given records.
    pub open spec fn describes(&self, records: Seq<Json>) -> bool {
        &&& self.present == present_in(records, self.path.steps())
        &&& self.counts(field_values(records, self.path.steps()))
    }

    /// The field is what it was `before`, with one more record taken in.
    pub open spec fn takes_in(&self, before: FieldStats, records: Seq<Json>, root: Json) -> bool {
        &&& before.describes(records)
        &&& self.path == before.path
        &&& self.describes(records.push(root))
    }

    fn new(path: FieldPath) -> (field: Self)
        ensures
            field.describes(Seq::empty()),
            field.path == path,
    {
        let field = FieldStats {
            path,
            present: 0,
            values: 0,
            types: TypeCounts::default(),
            values_capped: false,
            value_counts: Table::new(),
        };
        proof {
            let none = field_values(Seq::empty(), field.path.steps());
            assert(kinds_of(none) =~= Seq::empty());
            assert(encodings(none) =~= Seq::empty());
            assert(tracked_items(encodings(none), MAX_FIELD_VALUES as nat) =~= Seq::empty());
        }
        field
    }

    fn record(&mut self, root: &Value, Ghost(records): Ghost<Seq<Json>>)
        requires
            old(self).describes(records),
            records.len() < u64::MAX,
            field_values(records, old(self).path.steps()).len() + size(root.json()) <= u64::MAX,
        ensures
            final(self).takes_in(*old(self), records, root.json()),
            final(self).values == old(self).values + reached(
                root.json(),
                old(self).path.steps(),
            ).len(),
            final(self).present == old(self).present + if reached(
                root.json(),
                old(self).path.steps(),
            ).len() > 0 {
                1int
            } else {
                0int
            },
    {
        let ghost steps = self.path.steps();
        let ghost earlier = field_values(records, steps);
        let ghost found = reached(root.json(), steps);
        let ghost after = records.push(root.json());
        let matches = self.path.resolve(root);
        proof {
            assert(after.drop_last() =~= records);
            law_reached_values_fit_the_record(root.json(), steps);
            lemma_present_in(records, steps);
            assert(jsons(matches@).len() == matches@.len());
        }
        if matches.len() > 0 {
            self.present = self.present + 1;
        }
        let mut i: usize = 0;
        proof {
            assert(found.take(0) =~= Seq::empty());
            assert(earlier + found.take(0) =~= earlier);
        }
        while i < matches.len()
            invariant
                i <= matches@.len(),
                jsons(matches@) == found,
                found.len() == matches@.len(),
                self.path == old(self).path,
                self.present == present_in(after, steps),
                self.counts(earlier + found.take(i as int)),
                earlier.len() + found.len() <= u64::MAX,
            decreases matches@.len() - i,
        {
            let ghost done = earlier + found.take(i as int);
            let value: &Value = matches[i];
            assert(found[i as int] == value.json());
            let rendered: String = value.to_json();
            self.values = self.values + 1;
            self.types.record(value.kind(), Ghost(kinds_of(done)));
            if count_value(&mut self.value_counts, rendered, Ghost(encodings(done))) {
                self.values_capped = true;
            }
            proof {
                let now = done.push(value.json());
                assert(earlier + found.take(i + 1) =~= now);
                assert(kinds_of(now) =~= kinds_of(done).push(kind_of(value.json())));
                assert(encodings(now) =~= encodings(done).push(encoding(value.json())));
            }
            i = i + 1;
        }
        assert(found.take(i as int) =~= found);
    }

    /// The `n` most frequent values, as their compact JSON encoding, most
    /// frequent first. Ties break on the encoding itself, so the order is
    /// stable across runs.
    pub fn top(&self, n: usize) -> (top: Vec<(String, u64)>)
        requires
            self.value_counts.wf(),
        ensures
            forall|values: Seq<Json>| #[trigger]
                self.counts(values) ==> tops(top@, encodings(values), n as nat),
    {
        let counts = &self.value_counts.values;
        let order: Vec<usize> = ranking(counts);
        let mut top: Vec<(String, u64)> = Vec::new();
        let ghost names = self.value_counts.names();
        let mut i: usize = 0;
        while i < order.len() && i < n
            invariant
                self.value_counts.wf(),
                counts@ == self.value_counts.values@,
                names == self.value_counts.names(),
                i <= order@.len() == names.len(),
                i <= n,
                counts@.len() == names.len(),
                forall|k: int| 0 <= k < order@.len() ==> #[trigger] order@[k] < counts@.len(),
                top@.len() == i,
                forall|k: int|
                    0 <= k < i ==> (#[trigger] top@[k]).0@ == names[order@[k] as int] && top@[k].1
                        == counts@[order@[k] as int],
            decreases order@.len() - i,
        {
            let at: usize = order[i];
            top.push((self.value_counts.keys[at].clone(), counts[at]));
            i = i + 1;
        }
        proof {
            lemma_in_text_order(names);
            assert forall|values: Seq<Json>| #[trigger] self.counts(values) implies tops(
                top@,
                encodings(values),
                n as nat,
            ) by {
                let all = encodings(values);
                let listed = tracked_items(all, MAX_FIELD_VALUES as nat);
                lemma_tracked_items(all, MAX_FIELD_VALUES as nat);
                lemma_same_items_len(names, listed);
                assert forall|k: int| 0 <= k < top@.len() implies listed.contains(
                    (#[trigger] top@[k]).0@,
                ) && top@[k].1 == times(all, top@[k].0@) by {
                    let at = order@[k] as int;
                    assert(names.contains(names[at]));
                    assert(counts@[at] == times(all, names[at]));
                }
                assert forall|k: int, j: int| 0 <= k < j < top@.len() implies listed_first(
                    (#[trigger] top@[k]).0@,
                    top@[k].1 as nat,
                    (#[trigger] top@[j]).0@,
                    top@[j].1 as nat,
                ) by {
                    assert(ranks_before(counts@, order@[k] as int, order@[j] as int));
                }
                assert forall|name: Seq<char>, k: int|
                    #![trigger listed.contains(name), top@[k]]
                    listed.contains(name) && 0 <= k < top@.len() implies listed_first(
                    top@[k].0@,
                    top@[k].1 as nat,
                    name,
                    times(all, name),
                ) || tops_hold(top@, name) by {
                    assert(names.contains(name));
                    let at = choose|at: int| 0 <= at < names.len() && names[at] == name;
                    assert(order@.contains(at as usize));
                    let p = choose|p: int| 0 <= p < order@.len() && order@[p] == at as usize;
                    assert(counts@[at] == times(all, names[at]));
                    if p < top@.len() {
                        assert(top@[p].0@ == name);
                    } else {
                        assert(ranks_before(counts@, order@[k] as int, order@[p] as int));
                    }
                }
            }
        }
        top
    }

    /// How many distinct values have been tracked so far.
    pub fn distinct(&self) -> (n: usize)
        requires
            self.value_counts.wf(),
        ensures
            n == self.value_counts.names().len(),
            forall|values: Seq<Json>| #[trigger]
                self.counts(values) ==> n == tracked_items(
                    encodings(values),
                    MAX_FIELD_VALUES as nat,
                ).len(),
    {
        proof {
            lemma_in_text_order(self.value_counts.names());
            assert forall|values: Seq<Json>| #[trigger] self.counts(values) implies tracked_items(
                encodings(values),
                MAX_FIELD_VALUES as nat,
            ).len() == self.value_counts.names().len() by {
                lemma_tracked_items(encodings(values), MAX_FIELD_VALUES as nat);
                lemma_same_items_len(
                    self.value_counts.names(),
                    tracked_items(encodings(values), MAX_FIELD_VALUES as nat),
                );
            }
        }
        self.value_counts.len()
    }
}

proof fn lemma_present_in(records: Seq<Json>, steps: Seq<Step>)
    ensures
        present_in(records, steps) <= records.len(),
        present_in(records, steps) <= field_values(records, steps).len(),
    decreases records.len(),
{
    if records.len() > 0 {
        lemma_present_in(records.drop_last(), steps);
    }
}

/// Options controlling a [`Stats`] pass.
#[derive(Debug, Clone)]
pub struct StatsOptions {
    /// Field paths to profile with a [`FieldStats`] entry each, in order.
    pub fields: Vec<FieldPath>,
    /// Broken lines kept in [`Stats::issues`] before the rest are only counted
    /// via [`Stats::issues_truncated`].
    pub max_errors: usize,
}

impl Default for StatsOptions {
    fn default() -> (options: Self)
        ensures
            options.fields@.len() == 0,
            options.max_errors == 10,
    {
        StatsOptions { fields: Vec::new(), max_errors: 10 }
    }
}

/// The problems behind some issues.
pub open spec fn problems_of(issues: Seq<Issue>) -> Seq<Problem> {
    issues.map_values(|i: Issue| i@)
}

/// The first `max` problems, or all of them if there are no more.
pub open spec fn first_problems(problems: Seq<Problem>, max: nat) -> Seq<Problem> {
    if problems.len() <= max {
        problems
    } else {
        problems.take(max as int)
    }
}

/// The result of a pass over JSONL input.
#[derive(Clone)]
pub struct Stats {
    /// Total lines read, including blank and invalid ones.
    pub lines: u64,
    /// Lines that were empty or all whitespace.
    pub blank: u64,
    /// Lines that parsed as a complete JSON value.
    pub valid: u64,
    /// Total bytes read, including line endings.
    pub bytes: u64,
    /// The type of each valid line's top level value.
    pub top_level_types: TypeCounts,
    /// The byte length of every non-blank line.
    pub line_length: Histogram,
    /// True once the top level key table hit [`MAX_KEYS`] and further distinct
    /// keys stopped being tracked individually.
    pub keys_capped: bool,
    /// Broken lines in the order encountered, up to `max_errors` from
    /// [`StatsOptions`].
    pub issues: Vec<Issue>,
    /// How many further broken lines were seen after `issues` filled up.
    pub issues_truncated: u64,
    /// Per-field results, in the same order as `StatsOptions::fields`.
    pub fields: Vec<FieldStats>,
    /// The tracked top level keys.
    pub key_table: Table<KeyStats>,
    /// How many broken lines are kept in `issues`.
    pub max_errors: usize,
    /// The lines that the statistics are about.
    pub history: Ghost<Seq<LineModel>>,
}

impl Stats {
    /// The statistics are exactly those of the lines taken in.
    pub open spec fn wf(&self) -> bool {
        let lines = self.history@;
        let seen = records(lines);
        let broken = problems(lines);
        let batches = key_batches(seen);
        &&& all_sound(lines)
        &&& self.lines == lines.len()
        &&& self.blank == blanks(lines)
        &&& self.valid == seen.len()
        &&& self.bytes == total_raw(lines)
        &&& self.top_level_types.tallies(kinds_of(seen))
        &&& self.line_length.describes(lengths(lines))
        &&& problems_of(self.issues@) == first_problems(broken, self.max_errors as nat)
        &&& self.issues_truncated == broken.len() - self.issues@.len()
        &&& tracks_keys(self.key_table, batches)
        &&& self.keys_capped == turned_away(names_of(all_sightings(batches)), MAX_KEYS as nat)
        &&& forall|i: int| 0 <= i < self.fields@.len() ==> (#[trigger] self.fields@[i]).describes(seen)
    }

    /// The statistics are set up as the options say.
    pub open spec fn follows(&self, options: StatsOptions) -> bool {
        &&& self.max_errors == options.max_errors
        &&& self.fields@.len() == options.fields@.len()
        &&& forall|i: int|
            0 <= i < self.fields@.len() ==> (#[trigger] self.fields@[i]).path.steps()
                == options.fields@[i].steps() && self.fields@[i].path.text()
                == options.fields@[i].text()
    }

    /// Statistics of no lines at all.
    pub fn new(options: &StatsOptions) -> (stats: Self)
        ensures
            stats.wf(),
            stats.follows(*options),
            stats.history@ == Seq::<LineModel>::empty(),
    {
        let mut fields: Vec<FieldStats> = Vec::new();
        let mut i: usize = 0;
        while i < options.fields.len()
            invariant
                i <= options.fields@.len(),
                fields@.len() == i,
                forall|k: int|
                    0 <= k < i ==> (#[trigger] fields@[k]).describes(Seq::empty())
                        && fields@[k].path.steps() == options.fields@[k].steps()
                        && fields@[k].path.text() == options.fields@[k].text(),
            decreases options.fields@.len() - i,
        {
            fields.push(FieldStats::new(options.fields[i].clone()));
            i = i + 1;
        }
        let stats = Stats {
            lines: 0,
            blank: 0,
            valid: 0,
            bytes: 0,
            top_level_types: TypeCounts::default(),
            line_length: Histogram::new(),
            keys_capped: false,
            issues: Vec::new(),
            issues_truncated: 0,
            fields,
            key_table: Table::new(),
            max_errors: options.max_errors,
            history: Ghost(Seq::empty()),
        };
        proof {
            let seen = records(stats.history@);
            assert(kinds_of(seen) =~= Seq::empty());
            assert(key_batches(seen) =~= Seq::empty());
            assert(names_of(all_sightings(key_batches(seen))) =~= Seq::empty());
            assert(problems_of(stats.issues@) =~= Seq::empty());
        }
        stats
    }

    /// Runs a full pass over `input`, splitting it into lines and parsing each
    /// non-blank one.
    pub fn from_reader(input: &[u8], options: StatsOptions) -> (stats: Stats)
        requires
            input@.len() < usize::MAX,
        ensures
            stats.wf(),
            stats.follows(options),
            stats.history@ == lines_of(input@),
            stats.bytes == input@.len(),
    {
        let mut stats = Stats::new(&options);
        let mut lines = LineReader::new(input);
        let ghost mut rest = input@;
        assert(Seq::empty() + lines_of(input@) =~= lines_of(input@));
        loop
            invariant
                stats.wf(),
                stats.follows(options),
                lines.wf(),
                rest == lines.rest(),
                input@.len() < usize::MAX,
                lines_of(input@) == stats.history@ + lines_after(rest, lines.lines()),
                stats.bytes + rest.len() == input@.len(),
            decreases rest.len(),
        {
            proof {
                lemma_raw_line(rest);
            }
            match lines.read_line() {
                None => {
                    assert(stats.history@ + lines_after(rest, lines.lines()) =~= stats.history@);
                    return stats;
                },
                Some(line) => {
                    let ghost before = stats.history@;
                    let ghost n = raw_line_len(rest) as int;
                    let ghost number = lines.lines();
                    stats.add_line(&line);
                    proof {
                        assert(before.push(line@).drop_last() =~= before);
                        assert(before + (seq![line@] + lines_after(rest.skip(n), number)) =~= before.push(
                            line@,
                        ) + lines_after(rest.skip(n), number));
                        rest = lines.rest();
                    }
                },
            }
        }
    }

    /// Takes in the next line.
    pub fn add_line(&mut self, line: &Line)
        requires
            old(self).wf(),
            line.wf(),
            line.bytes@.len() < usize::MAX,
            old(self).bytes + line.raw_len <= u64::MAX,
        ensures
            final(self).wf(),
            final(self).history@ == old(self).history@.push(line@),
            forall|options: StatsOptions| #[trigger]
                old(self).follows(options) ==> final(self).follows(options),
    {
        let ghost before = self.history@;
        let ghost after = before.push(line@);
        let ghost seen = records(before);
        proof {
            assert(after.drop_last() =~= before);
            assert(all_sound(after)) by {
                assert(sound(line@));
            }
            law_every_line_counts_once(before);
            law_every_line_counts_once(after);
            law_input_bounds_its_contents(before);
            law_input_bounds_its_contents(after);
            self.line_length.lemma_recorded(lengths(before));
            assert(self.line_length.wf());
        }
        self.history = Ghost(after);
        self.lines = self.lines + 1;
        self.bytes = self.bytes + line.raw_len as u64;
        match examine(line) {
            Found::Blank => {
                self.blank = self.blank + 1;
            },
            Found::Broken(column, reason) => {
                self.line_length.add(line.bytes.len() as u64);
                self.record_issue(line.number, column, reason);
            },
            Found::Record(value) => {
                let ghost json = value.json();
                proof {
                    assert(records(after) == seen.push(json));
                    assert(seen.push(json).drop_last() =~= seen);
                    assert(kinds_of(seen.push(json)) =~= kinds_of(seen).push(kind_of(json)));
                    assert(key_batches(seen.push(json)) =~= key_batches(seen).push(
                        member_sightings(json),
                    ));
                    lemma_key_count(seen);
                    lemma_items_count(seen);
                }
                self.line_length.add(line.bytes.len() as u64);
                self.valid = self.valid + 1;
                self.top_level_types.record(value.kind(), Ghost(kinds_of(seen)));
                match &value {
                    Value::Object(members) => {
                        proof {
                            lemma_members_count(json->Object_0);
                            assert(size(json) == 1 + members_size(json->Object_0));
                        }
                        if record_keys(
                            &mut self.key_table,
                            members,
                            self.valid,
                            Ghost(key_batches(seen)),
                            Ghost(json->Object_0),
                        ) {
                            self.keys_capped = true;
                        }
                    },
                    _ => {
                        proof {
                            lemma_tracks_open_batch(self.key_table, key_batches(seen));
                            lemma_open_batch(key_batches(seen), Seq::empty());
                        }
                    },
                }
                self.record_fields(&value, Ghost(seen));
            },
        }
    }

    /// Lines that neither parsed nor were blank.
    pub fn invalid(&self) -> (n: u64)
        requires
            self.wf(),
        ensures
            n == problems(self.history@).len(),
    {
        proof {
            law_every_line_counts_once(self.history@);
        }
        self.lines - self.blank - self.valid
    }

    /// Top level key statistics, most common key first. Ties break on the key
    /// name, so the order is stable across runs.
    pub fn keys(&self) -> (keys: Vec<&KeyStats>)
        requires
            self.wf(),
        ensures
            lists_keys(keys@, key_batches(records(self.history@))),
    {
        let table = &self.key_table;
        let ghost batches = key_batches(records(self.history@));
        let ghost names = table.names();
        let mut counts: Vec<u64> = Vec::new();
        let mut i: usize = 0;
        while i < table.values.len()
            invariant
                i <= table.values@.len(),
                counts@.len() == i,
                forall|k: int| 0 <= k < i ==> #[trigger] counts@[k] == table.values@[k].count,
            decreases table.values@.len() - i,
        {
            counts.push(table.values[i].count);
            i = i + 1;
        }
        let order: Vec<usize> = ranking(&counts);
        let mut keys: Vec<&KeyStats> = Vec::new();
        let mut n: usize = 0;
        while n < order.len()
            invariant
                n <= order@.len(),
                keys@.len() == n,
                forall|k: int| 0 <= k < order@.len() ==> #[trigger] order@[k] < table.values@.len(),
                forall|k: int| 0 <= k < n ==> #[trigger] keys@[k] == table.values@[order@[k] as int],
            decreases order@.len() - n,
        {
            keys.push(&table.values[order[n]]);
            n = n + 1;
        }
        proof {
            let all = names_of(all_sightings(batches));
            let listed = tracked_items(all, MAX_KEYS as nat);
            lemma_tracked_items(all, MAX_KEYS as nat);
            lemma_in_text_order(names);
            lemma_same_items_len(names, listed);
            assert forall|k: int| 0 <= k < keys@.len() implies (#[trigger] keys@[k]).describes(
                batches,
            ) && listed.contains(keys@[k].key@) by {
                let at = order@[k] as int;
                assert(table.values@[at].key@ == names[at]);
                assert(names.contains(names[at]));
            }
            assert forall|k: int, j: int| 0 <= k < j < keys@.len() implies listed_first(
                (#[trigger] keys@[k]).key@,
                keys@[k].count as nat,
                (#[trigger] keys@[j]).key@,
                keys@[j].count as nat,
            ) by {
                assert(ranks_before(counts@, order@[k] as int, order@[j] as int));
                assert(table.values@[order@[k] as int].key@ == names[order@[k] as int]);
                assert(table.values@[order@[j] as int].key@ == names[order@[j] as int]);
            }
            assert forall|name: Seq<char>| #[trigger] listed.contains(name) implies exists|k: int|
                0 <= k < keys@.len() && (#[trigger] keys@[k]).key@ == name by {
                assert(names.contains(name));
                let at = choose|at: int| 0 <= at < names.len() && names[at] == name;
                assert(order@.contains(at as usize));
                let p = choose|p: int| 0 <= p < order@.len() && order@[p] == at as usize;
                assert(table.values@[at].key@ == names[at]);
                assert(keys@[p].key@ == name);
            }
        }
        keys
    }

    fn record_issue(&mut self, line: u64, column: usize, reason: &'static str)
        requires
            old(self).issues_truncated < u64::MAX,
        ensures
            *final(self) == (Stats {
                issues: final(self).issues,
                issues_truncated: final(self).issues_truncated,
                ..*old(self)
            }),
            forall|broken: Seq<Problem>|
                problems_of(old(self).issues@) == #[trigger] first_problems(
                    broken,
                    old(self).max_errors as nat,
                ) && old(self).issues_truncated == broken.len() - old(self).issues@.len() ==> {
                    let more = broken.push(
                        Problem { line: line as nat, column: column as nat, reason: reason@ },
                    );
                    &&& problems_of(final(self).issues@) == first_problems(
                        more,
                        final(self).max_errors as nat,
                    )
                    &&& final(self).issues_truncated == more.len() - final(self).issues@.len()
                },
    {
        let ghost kept = self.issues@;
        let ghost problem = Problem {
            line: line as nat,
            column: column as nat,
            reason: reason@,
        };
        if self.issues.len() < self.max_errors {
            self.issues.push(Issue { line, column, reason: reason.to_owned() });
            assert(problems_of(self.issues@) =~= problems_of(kept).push(problem));
        } else {
            self.issues_truncated = self.issues_truncated + 1;
        }
        proof {
            let max = self.max_errors as nat;
            assert forall|broken: Seq<Problem>|
                problems_of(kept) == #[trigger] first_problems(broken, max) && old(
                    self,
                ).issues_truncated == broken.len() - kept.len() implies problems_of(self.issues@)
                == first_problems(broken.push(problem), max) && self.issues_truncated
                == broken.push(problem).len() - self.issues@.len() by {
                assert(problems_of(kept).len() == kept.len());
                if kept.len() >= max {
                    assert(broken.push(problem).take(max as int) =~= problems_of(kept));
                }
            }
        }
    }

    fn record_fields(&mut self, value: &Value, Ghost(seen): Ghost<Seq<Json>>)
        requires
            forall|i: int|
                0 <= i < old(self).fields@.len() ==> (#[trigger] old(self).fields@[i]).describes(
                    seen,
                ),
            items_size(seen) + size(value.json()) <= u64::MAX,
        ensures
            *final(self) == (Stats { fields: final(self).fields, ..*old(self) }),
            final(self).fields@.len() == old(self).fields@.len(),
            forall|i: int|
                0 <= i < final(self).fields@.len() ==> (
                #[trigger] final(self).fields@[i]).describes(seen.push(value.json()))
                    && final(self).fields@[i].path == old(self).fields@[i].path,
    {
        let mut i: usize = 0;
        proof {
            lemma_items_count(seen);
            assert(size(value.json()) >= 1);
        }
        while i < self.fields.len()
            invariant
                i <= self.fields@.len(),
                *self == (Stats { fields: self.fields, ..*old(self) }),
                self.fields@.len() == old(self).fields@.len(),
                forall|k: int|
                    0 <= k < i ==> (#[trigger] self.fields@[k]).describes(
                        seen.push(value.json()),
                    ) && self.fields@[k].path == old(self).fields@[k].path,
                forall|k: int|
                    i <= k < self.fields@.len() ==> #[trigger] self.fields@[k] == old(
                        self,
                    ).fields@[k],
                forall|k: int|
                    0 <= k < old(self).fields@.len() ==> (
                    #[trigger] old(self).fields@[k]).describes(seen),
                items_size(seen) + size(value.json()) <= u64::MAX,
                seen.len() < u64::MAX,
            decreases self.fields@.len() - i,
        {
            proof {
                assert(self.fields@[i as int] == old(self).fields@[i as int]);
                lemma_field_count(seen, self.fields@[i as int].path.steps());
            }
            self.fields[i].record(value, Ghost(seen));
            i = i + 1;
        }
    }
}

/// A path reaches no more values than the records hold.
proof fn lemma_field_count(records: Seq<Json>, steps: Seq<Step>)
    ensures
        field_values(records, steps).len() <= items_size(records),
    decreases records.len(),
{
    if records.len() > 0 {
        lemma_field_count(records.drop_last(), steps);
        law_reached_values_fit_the_record(records.last(), steps);
    }
}

/// There are no more keys than the records hold values, without the records
/// themselves.
proof fn lemma_key_count(records: Seq<Json>)
    ensures
        all_sightings(key_batches(records)).len() + records.len() <= items_size(records),
    decreases records.len(),
{
    let batches = key_batches(records);
    if records.len() > 0 {
        lemma_key_count(records.drop_last());
        assert(batches.drop_last() =~= key_batches(records.drop_last()));
        assert(batches.last() == member_sightings(records.last()));
        match records.last() {
            Json::Object(members) => {
                lemma_members_count(members);
                assert(size(records.last()) == 1 + members_size(members));
            },
            _ => {
                assert(size(records.last()) >= 1);
            },
        }
    }
}

/// Every line is accounted for: as blank, valid or invalid, and an invalid one
/// as an issue that was kept or one that was only counted.
pub proof fn law_every_line_is_accounted_for(stats: Stats)
    requires
        stats.wf(),
    ensures
        stats.blank + stats.valid + problems(stats.history@).len() == stats.lines,
        stats.issues@.len() + stats.issues_truncated == problems(stats.history@).len(),
        stats.issues@.len() <= stats.max_errors,
        stats.issues_truncated > 0 ==> stats.issues@.len() == stats.max_errors,
{
    law_every_line_counts_once(stats.history@);
    assert(problems_of(stats.issues@).len() == stats.issues@.len());
}

/// The types add up: one for each valid line at the top level, one for each
/// value of a field.
pub proof fn law_types_add_up(stats: Stats)
    requires
        stats.wf(),
    ensures
        count_sum(stats.top_level_types@) == stats.valid,
        forall|i: int|
            0 <= i < stats.fields@.len() ==> count_sum((#[trigger] stats.fields@[i]).types@)
                == stats.fields@[i].values,
{
    let seen = records(stats.history@);
    law_counts_add_up(kinds_of(seen));
    assert forall|i: int| 0 <= i < stats.fields@.len() implies count_sum(
        (#[trigger] stats.fields@[i]).types@,
    ) == stats.fields@[i].values by {
        law_counts_add_up(kinds_of(field_values(seen, stats.fields@[i].path.steps())));
    }
}

/// No field is present in more records than there are, nor in more than it has
/// values; it has more values than records only through a wildcard.
pub proof fn law_presence_is_bounded(stats: Stats, i: int)
    requires
        stats.wf(),
        0 <= i < stats.fields@.len(),
    ensures
        stats.fields@[i].present <= stats.valid,
        stats.fields@[i].present <= stats.fields@[i].values,
        (forall|k: int|
            0 <= k < stats.fields@[i].path.steps().len() ==> !(
            #[trigger] stats.fields@[i].path.steps()[k] is Wildcard)) ==> stats.fields@[i].present
            == stats.fields@[i].values,
{
    let seen = records(stats.history@);
    let steps = stats.fields@[i].path.steps();
    assert(stats.fields@[i].describes(seen));
    lemma_present_in(seen, steps);
    if forall|k: int| 0 <= k < steps.len() ==> !(#[trigger] steps[k] is Wildcard) {
        lemma_present_exactly(seen, steps);
    }
}

proof fn lemma_present_exactly(records: Seq<Json>, steps: Seq<Step>)
    requires
        forall|k: int| 0 <= k < steps.len() ==> !(#[trigger] steps[k] is Wildcard),
    ensures
        present_in(records, steps) == field_values(records, steps).len(),
    decreases records.len(),
{
    if records.len() > 0 {
        lemma_present_exactly(records.drop_last(), steps);
        law_only_wildcards_fan_out(records.last(), steps);
    }
}

/// No key is counted more often than there are records, and no table holds more
/// than it has room for; a table that turned a text away is full.
pub proof fn law_tables_are_bounded(stats: Stats)
    requires
        stats.wf(),
    ensures
        stats.key_table.names().len() <= MAX_KEYS,
        stats.keys_capped ==> stats.key_table.names().len() == MAX_KEYS,
        forall|i: int|
            0 <= i < stats.key_table.values@.len() ==> (
            #[trigger] stats.key_table.values@[i]).count <= stats.valid,
        forall|i: int|
            0 <= i < stats.fields@.len() ==> (
            #[trigger] stats.fields@[i]).value_counts.names().len() <= MAX_FIELD_VALUES && (
            stats.fields@[i].values_capped ==> stats.fields@[i].value_counts.names().len()
                == MAX_FIELD_VALUES),
        MAX_KEYS == 512,
        MAX_FIELD_VALUES == 10_000,
{
    let seen = records(stats.history@);
    let batches = key_batches(seen);
    let names = names_of(all_sightings(batches));
    lemma_tracked_items(names, MAX_KEYS as nat);
    lemma_in_text_order(stats.key_table.names());
    lemma_same_items_len(stats.key_table.names(), tracked_items(names, MAX_KEYS as nat));
    assert forall|i: int| 0 <= i < stats.key_table.values@.len() implies (
    #[trigger] stats.key_table.values@[i]).count <= stats.valid by {
        law_batches_with(batches, stats.key_table.values@[i].key@);
    }
    assert forall|i: int| 0 <= i < stats.fields@.len() implies (
    #[trigger] stats.fields@[i]).value_counts.names().len() <= MAX_FIELD_VALUES && (
    stats.fields@[i].values_capped ==> stats.fields@[i].value_counts.names().len()
        == MAX_FIELD_VALUES) by {
        let field = stats.fields@[i];
        let all = encodings(field_values(seen, field.path.steps()));
        assert(field.describes(seen));
        lemma_tracked_items(all, MAX_FIELD_VALUES as nat);
        lemma_in_text_order(field.value_counts.names());
        lemma_same_items_len(
            field.value_counts.names(),
            tracked_items(all, MAX_FIELD_VALUES as nat),
        );
    }
}

/// Counts of values, added up.
pub open spec fn value_sum(counts: Seq<u64>) -> nat
    decreases counts.len(),
{
    if counts.len() == 0 {
        0
    } else {
        value_sum(counts.drop_last()) + counts.last() as nat
    }
}

/// The counts of a listing.
pub open spec fn listed_counts(top: Seq<(String, u64)>) -> Seq<u64> {
    top.map_values(|entry: (String, u64)| entry.1)
}

/// The texts of a listing.
spec fn listed_texts(top: Seq<(String, u64)>) -> Seq<Seq<char>> {
    top.map_values(|entry: (String, u64)| entry.0@)
}

proof fn lemma_value_sum(counts: Seq<u64>, items: Seq<Seq<char>>, names: Seq<Seq<char>>)
    requires
        counts.len() == names.len(),
        forall|i: int| 0 <= i < counts.len() ==> #[trigger] counts[i] == times(items, names[i]),
    ensures
        value_sum(counts) == occurrences(items, names),
    decreases counts.len(),
{
    if counts.len() > 0 {
        assert(counts[counts.len() - 1] == times(items, names[counts.len() - 1]));
        assert forall|i: int| 0 <= i < counts.drop_last().len() implies #[trigger] counts.drop_last()[i]
            == times(items, names.drop_last()[i]) by {
            assert(counts[i] == times(items, names[i]));
        }
        lemma_value_sum(counts.drop_last(), items, names.drop_last());
    }
}

/// What is counted of a field adds up. Its types add up to its values. The
/// counts of the tracked values add up to no more than that, and to less
/// exactly if some value was turned away; then the table is full.
pub proof fn law_field_counts_add_up(field: FieldStats, values: Seq<Json>)
    requires
        field.counts(values),
    ensures
        count_sum(field.types@) == field.values,
        field.value_counts.names().len() <= MAX_FIELD_VALUES,
        field.values_capped ==> field.value_counts.names().len() == MAX_FIELD_VALUES,
        value_sum(field.value_counts.values@) <= field.values,
        field.values_capped <==> value_sum(field.value_counts.values@) < field.values,
{
    let all = encodings(values);
    let names = field.value_counts.names();
    let cap = MAX_FIELD_VALUES as nat;
    law_counts_add_up(kinds_of(values));
    lemma_tracked_items(all, cap);
    lemma_in_text_order(names);
    lemma_same_items_len(names, tracked_items(all, cap));
    law_occurrences_of_tracked_items(all, cap, names);
    lemma_value_sum(field.value_counts.values@, all, names);
}

/// A listing long enough for every tracked value adds up to the values of the
/// field, unless some value was turned away: then it adds up to less.
pub proof fn law_listed_values_add_up(
    field: FieldStats,
    values: Seq<Json>,
    top: Seq<(String, u64)>,
    n: nat,
)
    requires
        field.counts(values),
        tops(top, encodings(values), n),
        n >= MAX_FIELD_VALUES,
    ensures
        top.len() == field.value_counts.names().len(),
        value_sum(listed_counts(top)) <= field.values,
        field.values_capped <==> value_sum(listed_counts(top)) < field.values,
{
    let all = encodings(values);
    let names = listed_texts(top);
    let counts = listed_counts(top);
    let cap = MAX_FIELD_VALUES as nat;
    let listed = tracked_items(all, cap);
    lemma_tracked_items(all, cap);
    lemma_in_text_order(field.value_counts.names());
    lemma_same_items_len(field.value_counts.names(), listed);
    assert forall|i: int, j: int| 0 <= i < j < names.len() implies names[i] != names[j] by {
        assert(listed_first(top[i].0@, top[i].1 as nat, top[j].0@, top[j].1 as nat));
        assert(top[i].1 == times(all, top[i].0@));
        assert(top[j].1 == times(all, top[j].0@));
        lemma_listed_first(top[i].0@, top[i].1 as nat, top[j].0@, top[j].1 as nat);
    }
    assert(names.no_duplicates());
    assert forall|i: int| 0 <= i < names.len() implies listed.contains(#[trigger] names[i]) by {
        assert(listed.contains(top[i].0@));
    }
    lemma_same_len_items(names, listed);
    law_occurrences_of_tracked_items(all, cap, names);
    assert forall|i: int| 0 <= i < counts.len() implies #[trigger] counts[i] == times(
        all,
        names[i],
    ) by {
        assert(top[i].1 == times(all, top[i].0@));
    }
    lemma_value_sum(counts, all, names);
}

/// What one more record does to a field: its values grow by as many as the path
/// reaches there, it is present once more if there are any, and its path stays.
/// Its types add up to its values. No more values are tracked than there is
/// room for, and the room is used up if a value was turned away, which is so
/// exactly if a listing long enough for every tracked value adds up to less than
/// the values.
pub proof fn law_recording_adds_what_is_reached(
    before: FieldStats,
    after: FieldStats,
    records: Seq<Json>,
    root: Json,
    top: Seq<(String, u64)>,
    n: nat,
)
    requires
        after.takes_in(before, records, root),
        tops(top, encodings(field_values(records.push(root), after.path.steps())), n),
        n >= MAX_FIELD_VALUES,
    ensures
        after.path == before.path,
        after.values == before.values + reached(root, before.path.steps()).len(),
        after.present == before.present + if reached(root, before.path.steps()).len() > 0 {
            1int
        } else {
            0int
        },
        count_sum(after.types@) == after.values,
        after.value_counts.names().len() <= MAX_FIELD_VALUES,
        after.values_capped ==> after.value_counts.names().len() == MAX_FIELD_VALUES,
        before.values_capped ==> after.values_capped,
        value_sum(listed_counts(top)) <= after.values,
        after.values_capped <==> value_sum(listed_counts(top)) < after.values,
{
    let steps = before.path.steps();
    let more = records.push(root);
    let earlier = encodings(field_values(records, steps));
    let later = encodings(field_values(more, steps));
    assert(more.drop_last() =~= records);
    law_field_counts_add_up(after, field_values(more, steps));
    law_listed_values_add_up(after, field_values(more, steps), top, n);
    assert(later =~= earlier + encodings(reached(root, steps)));
    lemma_distinct_grows(earlier, encodings(reached(root, steps)));
}

/// More items have no fewer distinct ones.
proof fn lemma_distinct_grows<K>(items: Seq<K>, more: Seq<K>)
    ensures
        distinct(items).len() <= distinct(items + more).len(),
    decreases more.len(),
{
    if more.len() == 0 {
        assert(items + more =~= items);
    } else {
        lemma_distinct_grows(items, more.drop_last());
        assert((items + more).drop_last() =~= items + more.drop_last());
    }
}

/// The statistics of an input account for all of it: its bytes and lines, what
/// each line is, the length and the type of each that has one, and every broken
/// line as an issue that was kept or one that was only counted. The fields are
/// those that the options name, in their order.
pub proof fn law_statistics_of_an_input(stats: Stats, input: Seq<u8>, options: StatsOptions)
    requires
        stats.wf(),
        stats.follows(options),
        stats.history@ == lines_of(input),
    ensures
        stats.bytes == input.len(),
        stats.lines == lines_of(input).len(),
        stats.lines == stats.blank + stats.valid + problems(lines_of(input)).len(),
        stats.line_length.recorded() == stats.lines - stats.blank,
        count_sum(stats.top_level_types@) == stats.valid,
        stats.issues@.len() + stats.issues_truncated == problems(lines_of(input)).len(),
        stats.fields@.len() == options.fields@.len(),
        forall|i: int|
            0 <= i < stats.fields@.len() ==> (#[trigger] stats.fields@[i]).path.steps()
                == options.fields@[i].steps() && stats.fields@[i].path.text()
                == options.fields@[i].text(),
{
    law_raw_lengths_cover_the_input(input, 0);
    law_every_line_is_accounted_for(stats);
    law_every_line_counts_once(stats.history@);
    law_types_add_up(stats);
    stats.line_length.lemma_recorded(lengths(stats.history@));
}

/// The issues of an input come in the order of its lines, one for a line at
/// most, and none is left out where the limit is as large as it can be.
pub proof fn law_issues_are_in_line_order(stats: Stats, input: Seq<u8>)
    requires
        stats.wf(),
        stats.history@ == lines_of(input),
    ensures
        forall|i: int, j: int|
            0 <= i < j < stats.issues@.len() ==> (#[trigger] stats.issues@[i]).line < (
            #[trigger] stats.issues@[j]).line,
        stats.max_errors == usize::MAX && input.len() < usize::MAX ==> stats.issues_truncated == 0,
{
    let broken = problems(stats.history@);
    let kept = problems_of(stats.issues@);
    law_problems_are_in_line_order(input);
    law_every_line_counts_once(stats.history@);
    law_input_bounds_its_contents(stats.history@);
    law_raw_lengths_cover_the_input(input, 0);
    assert(kept.len() == stats.issues@.len());
    assert forall|i: int, j: int| 0 <= i < j < stats.issues@.len() implies (
    #[trigger] stats.issues@[i]).line < (#[trigger] stats.issues@[j]).line by {
        assert(kept[i] == stats.issues@[i]@ && kept[j] == stats.issues@[j]@);
        assert(kept[i] == broken[i] && kept[j] == broken[j]);
    }
}

/// The limit of issues changes nothing else: of the same lines, a lower limit
/// keeps the first of the issues that a higher one keeps and counts the others,
/// and every other figure of the input is the same.
pub proof fn law_lower_limit_keeps_the_first_issues(low: Stats, high: Stats)
    requires
        low.wf(),
        high.wf(),
        low.history@ == high.history@,
        low.max_errors <= high.max_errors,
    ensures
        low.issues@.len() == if low.max_errors < high.issues@.len() {
            low.max_errors as nat
        } else {
            high.issues@.len()
        },
        problems_of(low.issues@) == problems_of(high.issues@).take(low.issues@.len() as int),
        low.issues_truncated == high.issues_truncated + (high.issues@.len() - low.issues@.len()),
        low.lines == high.lines,
        low.blank == high.blank,
        low.valid == high.valid,
        low.bytes == high.bytes,
        low.top_level_types@ == high.top_level_types@,
        forall|values: Seq<u64>| #[trigger]
            low.line_length.describes(values) <==> high.line_length.describes(values),
        low.keys_capped == high.keys_capped,
        low.key_table.names() == high.key_table.names(),
        forall|i: int|
            #![trigger low.key_table.values@[i]]
            #![trigger high.key_table.values@[i]]
            0 <= i < low.key_table.values@.len() ==> same_key(
                low.key_table.values@[i],
                high.key_table.values@[i],
            ),
        forall|i: int, j: int|
            0 <= i < low.fields@.len() && 0 <= j < high.fields@.len() && (
            #[trigger] low.fields@[i]).path.steps() == (#[trigger] high.fields@[j]).path.steps()
                ==> same_field(low.fields@[i], high.fields@[j]),
{
    let lines = low.history@;
    let seen = records(lines);
    let broken = problems(lines);
    let batches = key_batches(seen);
    assert(problems_of(low.issues@).len() == low.issues@.len());
    assert(problems_of(high.issues@).len() == high.issues@.len());
    assert(problems_of(low.issues@) =~= problems_of(high.issues@).take(low.issues@.len() as int));
    low.line_length.law_same_values_same_histogram(&high.line_length, lengths(lines));
    assert(same_items(low.key_table.names(), high.key_table.names())) by {
        lemma_same_items_through(
            low.key_table.names(),
            tracked_items(names_of(all_sightings(batches)), MAX_KEYS as nat),
            high.key_table.names(),
        );
    }
    lemma_one_text_order(low.key_table.names(), high.key_table.names());
    assert forall|i: int|
        #![trigger low.key_table.values@[i]]
        #![trigger high.key_table.values@[i]]
        0 <= i < low.key_table.values@.len() implies same_key(
        low.key_table.values@[i],
        high.key_table.values@[i],
    ) by {
        assert(low.key_table.values@[i].key@ == low.key_table.names()[i]);
        assert(high.key_table.values@[i].key@ == high.key_table.names()[i]);
    }
    assert forall|i: int, j: int|
        0 <= i < low.fields@.len() && 0 <= j < high.fields@.len() && (
        #[trigger] low.fields@[i]).path.steps() == (
        #[trigger] high.fields@[j]).path.steps() implies same_field(
        low.fields@[i],
        high.fields@[j],
    ) by {
        lemma_same_field(low.fields@[i], high.fields@[j], seen);
    }
}

/// Two entries say the same of the same key.
pub open spec fn same_key(a: KeyStats, b: KeyStats) -> bool {
    &&& a.key@ == b.key@
    &&& a.count == b.count
    &&& a.types@ == b.types@
}

/// Two entries say the same of a field.
pub open spec fn same_field(a: FieldStats, b: FieldStats) -> bool {
    &&& a.present == b.present
    &&& a.values == b.values
    &&& a.types@ == b.types@
    &&& a.values_capped == b.values_capped
    &&& a.value_counts.names() == b.value_counts.names()
    &&& a.value_counts.values@ == b.value_counts.values@
}

proof fn lemma_same_items_through<K>(a: Seq<K>, b: Seq<K>, c: Seq<K>)
    requires
        same_items(a, b),
        same_items(c, b),
    ensures
        same_items(a, c),
{
    assert forall|x: K| #[trigger] a.contains(x) <==> c.contains(x) by {
        assert(a.contains(x) <==> b.contains(x));
        assert(c.contains(x) <==> b.contains(x));
    }
}

proof fn lemma_same_field(a: FieldStats, b: FieldStats, records: Seq<Json>)
    requires
        a.describes(records),
        b.describes(records),
        a.path.steps() == b.path.steps(),
    ensures
        same_field(a, b),
{
    let names = encodings(field_values(records, a.path.steps()));
    lemma_same_items_through(
        a.value_counts.names(),
        tracked_items(names, MAX_FIELD_VALUES as nat),
        b.value_counts.names(),
    );
    lemma_one_text_order(a.value_counts.names(), b.value_counts.names());
    assert(a.value_counts.values@.len() == a.value_counts.names().len());
    assert(b.value_counts.values@.len() == b.value_counts.names().len());
    assert(a.value_counts.values@ =~= b.value_counts.values@) by {
        assert forall|i: int| 0 <= i < a.value_counts.values@.len() implies a.value_counts.values@[i]
            == b.value_counts.values@[i] by {
            assert(a.value_counts.values@[i] == times(names, a.value_counts.names()[i]));
            assert(b.value_counts.values@[i] == times(names, b.value_counts.names()[i]));
        }
    }
}

proof fn lemma_listed_first(a: Seq<char>, a_count: nat, b: Seq<char>, b_count: nat)
    ensures
        !(listed_first(a, a_count, b, b_count) && listed_first(b, b_count, a, a_count)),
        !listed_first(a, a_count, a, a_count),
{
    law_text_order(a, b, a);
}

/// What is frequent is listed in one way only, so that the order is stable
/// across runs.
pub proof fn law_one_way_to_list_values(
    a: Seq<(String, u64)>,
    b: Seq<(String, u64)>,
    names: Seq<Seq<char>>,
    n: nat,
    i: int,
)
    requires
        tops(a, names, n),
        tops(b, names, n),
        0 <= i < a.len(),
    ensures
        a.len() == b.len(),
        a[i].0@ == b[i].0@,
        a[i].1 == b[i].1,
    decreases i,
{
    let listed = tracked_items(names, MAX_FIELD_VALUES as nat);
    assert forall|k: int| 0 <= k < i implies (#[trigger] a[k]).0@ == b[k].0@ by {
        law_one_way_to_list_values(a, b, names, n, k);
    }
    let x = a[i].0@;
    let y = b[i].0@;
    assert(listed.contains(x) && listed.contains(y));
    if x != y {
        lemma_listed_first(x, times(names, x), y, times(names, y));
        assert(listed_first(y, times(names, y), x, times(names, x))) by {
            if tops_hold(b, x) {
                let j = choose|j: int| 0 <= j < b.len() && (#[trigger] b[j]).0@ == x;
                if j < i {
                    assert(a[j].0@ == b[j].0@);
                    lemma_listed_first(x, times(names, x), x, times(names, x));
                }
            } else {
                assert(b[i].0@ == y);
            }
        }
        assert(listed_first(x, times(names, x), y, times(names, y))) by {
            if tops_hold(a, y) {
                let k = choose|k: int| 0 <= k < a.len() && (#[trigger] a[k]).0@ == y;
                if k < i {
                    assert(a[k].0@ == b[k].0@);
                    lemma_listed_first(y, times(names, y), y, times(names, y));
                }
            } else {
                assert(a[i].0@ == x);
            }
        }
    }
}

/// Keys are listed in one way only, so that the order is stable across runs.
pub proof fn law_one_way_to_list_keys(
    a: Seq<&KeyStats>,
    b: Seq<&KeyStats>,
    batches: Seq<Seq<Sighting>>,
    i: int,
)
    requires
        lists_keys(a, batches),
        lists_keys(b, batches),
        0 <= i < a.len(),
    ensures
        a.len() == b.len(),
        a[i].key@ == b[i].key@,
        a[i].count == b[i].count,
        a[i].types@ == b[i].types@,
    decreases i,
{
    let listed = tracked_items(names_of(all_sightings(batches)), MAX_KEYS as nat);
    assert forall|k: int| 0 <= k < i implies (#[trigger] a[k]).key@ == b[k].key@ by {
        law_one_way_to_list_keys(a, b, batches, k);
    }
    let x = a[i].key@;
    let y = b[i].key@;
    assert(a[i].describes(batches) && b[i].describes(batches));
    assert(listed.contains(x) && listed.contains(y));
    if x != y {
        let cx = batches_with(batches, x);
        let cy = batches_with(batches, y);
        lemma_listed_first(x, cx, y, cy);
        let j = choose|j: int| 0 <= j < b.len() && (#[trigger] b[j]).key@ == x;
        assert(b[j].describes(batches));
        if j < i {
            assert(a[j].key@ == b[j].key@);
            lemma_listed_first(x, cx, x, cx);
            assert(a[j].describes(batches));
        }
        let k = choose|k: int| 0 <= k < a.len() && (#[trigger] a[k]).key@ == y;
        assert(a[k].describes(batches));
        if k < i {
            assert(a[k].key@ == b[k].key@);
            lemma_listed_first(y, cy, y, cy);
            assert(b[k].describes(batches));
        }
    }
}

/// Every one of some values can be written.
spec fn all_writable(values: Seq<Json>) -> bool {
    forall|i: int| 0 <= i < values.len() ==> writable(#[trigger] values[i], MAX_DEPTH as nat)
}

proof fn lemma_step_writable(json: Json, step: Step)
    requires
        writable(json, MAX_DEPTH as nat),
    ensures
        all_writable(step_into(json, step)),
{
    let less = (MAX_DEPTH - 1) as nat;
    let found = step_into(json, step);
    assert forall|i: int| 0 <= i < found.len() implies writable(
        #[trigger] found[i],
        MAX_DEPTH as nat,
    ) by {
        match (json, step) {
            (Json::Object(members), Step::Key(key)) => {
                law_first_member_is_found(members, key);
                let k = choose|k: int|
                    0 <= k < members.len() && #[trigger] members[k] == (key, found[0])
                        && forall|j: int| 0 <= j < k ==> (#[trigger] members[j]).0 != key;
                assert(writable(members[k].1, less));
                lemma_writable_deeper(found[i], less, MAX_DEPTH as nat);
            },
            (Json::Array(items), Step::Index(index)) => {
                let place = place_of(index, items.len())->0;
                assert(writable(items[place], less));
                lemma_writable_deeper(found[i], less, MAX_DEPTH as nat);
            },
            (Json::Array(items), Step::Wildcard) => {
                assert(writable(items[i], less));
                lemma_writable_deeper(found[i], less, MAX_DEPTH as nat);
            },
            _ => {},
        }
    }
}

proof fn lemma_step_all_writable(values: Seq<Json>, step: Step)
    requires
        all_writable(values),
    ensures
        all_writable(step_into_all(values, step)),
    decreases values.len(),
{
    if values.len() > 0 {
        let head = values.drop_last();
        assert forall|i: int| 0 <= i < head.len() implies writable(
            #[trigger] head[i],
            MAX_DEPTH as nat,
        ) by {
            assert(head[i] == values[i]);
        }
        lemma_step_all_writable(head, step);
        assert(writable(values[values.len() - 1], MAX_DEPTH as nat));
        lemma_step_writable(values.last(), step);
    }
}

proof fn lemma_reached_writable(root: Json, steps: Seq<Step>)
    requires
        writable(root, MAX_DEPTH as nat),
    ensures
        all_writable(reached(root, steps)),
    decreases steps.len(),
{
    if steps.len() > 0 {
        lemma_reached_writable(root, steps.drop_last());
        lemma_step_all_writable(reached(root, steps.drop_last()), steps.last());
    }
}

proof fn lemma_records_writable(lines: Seq<LineModel>)
    ensures
        all_writable(records(lines)),
    decreases lines.len(),
{
    if lines.len() > 0 {
        let last = lines.last();
        lemma_records_writable(lines.drop_last());
        match finding(last.bytes) {
            Finding::Record(json) => {
                vstd::utf8::decode_utf8_encode_utf8(last.bytes);
                law_what_is_read_can_be_written(decode_utf8(last.bytes));
            },
            _ => {},
        }
    }
}

proof fn lemma_field_values_writable(records: Seq<Json>, steps: Seq<Step>)
    requires
        all_writable(records),
    ensures
        all_writable(field_values(records, steps)),
    decreases records.len(),
{
    if records.len() > 0 {
        let head = records.drop_last();
        assert forall|i: int| 0 <= i < head.len() implies writable(
            #[trigger] head[i],
            MAX_DEPTH as nat,
        ) by {
            assert(head[i] == records[i]);
        }
        lemma_field_values_writable(head, steps);
        assert(writable(records[records.len() - 1], MAX_DEPTH as nat));
        lemma_reached_writable(records.last(), steps);
    }
}

/// Values that can be written are as many, and as often there, as their
/// encodings.
proof fn lemma_encodings_distinct(values: Seq<Json>)
    requires
        all_writable(values),
    ensures
        distinct(encodings(values)) == encodings(distinct(values)),
    decreases values.len(),
{
    let texts = encodings(values);
    if values.len() == 0 {
        assert(distinct(texts) =~= encodings(distinct(values)));
    } else {
        let head = values.drop_last();
        let last = values.last();
        assert forall|i: int| 0 <= i < head.len() implies writable(
            #[trigger] head[i],
            MAX_DEPTH as nat,
        ) by {
            assert(head[i] == values[i]);
        }
        lemma_encodings_distinct(head);
        law_distinct(head);
        assert(texts.drop_last() =~= encodings(head));
        let before = distinct(head);
        assert(distinct(texts.drop_last()).contains(texts.last()) <==> before.contains(last)) by {
            if encodings(before).contains(encoding(last)) {
                let k = choose|k: int|
                    0 <= k < encodings(before).len() && encodings(before)[k] == encoding(last);
                assert(before.contains(before[k]));
                assert(head.contains(before[k]));
                let j = choose|j: int| 0 <= j < head.len() && head[j] == before[k];
                assert(writable(values[j], MAX_DEPTH as nat));
                assert(writable(values[values.len() - 1], MAX_DEPTH as nat));
                law_encodings_tell_values_apart(before[k], last);
            }
            if before.contains(last) {
                let k = choose|k: int| 0 <= k < before.len() && before[k] == last;
                assert(encodings(before)[k] == encoding(last));
            }
        }
        assert(distinct(texts) =~= encodings(distinct(values)));
    }
}

/// A field has as many distinct values as their encodings say: while the table
/// has room, it tracks one text for each distinct value.
pub proof fn law_distinct_values_are_told_apart(stats: Stats, i: int)
    requires
        stats.wf(),
        0 <= i < stats.fields@.len(),
    ensures
        ({
            let values = field_values(records(stats.history@), stats.fields@[i].path.steps());
            &&& stats.fields@[i].values_capped <==> distinct(values).len() > MAX_FIELD_VALUES
            &&& !stats.fields@[i].values_capped ==> stats.fields@[i].value_counts.names().len()
                == distinct(values).len()
        }),
{
    let seen = records(stats.history@);
    let field = stats.fields@[i];
    let values = field_values(seen, field.path.steps());
    assert(field.describes(seen));
    lemma_records_writable(stats.history@);
    lemma_field_values_writable(seen, field.path.steps());
    lemma_encodings_distinct(values);
    lemma_tracked_items(encodings(values), MAX_FIELD_VALUES as nat);
    lemma_in_text_order(field.value_counts.names());
    lemma_same_items_len(
        field.value_counts.names(),
        tracked_items(encodings(values), MAX_FIELD_VALUES as nat),
    );
}

/// The types of some values are counted: each type that occurs is listed once, in
/// the order first met, with the number of the values that have it.
pub open spec fn counts_types(types: Seq<(Kind, nat)>, values: Seq<Json>) -> bool {
    &&& forall|i: int, j: int|
        0 <= i < j < types.len() ==> (#[trigger] types[i]).0 != (#[trigger] types[j]).0
    &&& forall|i: int|
        0 <= i < types.len() ==> (#[trigger] types[i]).1 == values.filter(
            |value: Json| kind_of(value) == types[i].0,
        ).len() && types[i].1 > 0
    &&& forall|k: int|
        0 <= k < values.len() ==> lists_type(types, kind_of(#[trigger] values[k]))
    &&& forall|i: int, j: int|
        0 <= i < j < types.len() ==> first_met_before(
            values.map_values(|value: Json| kind_of(value)),
            (#[trigger] types[i]).0,
            (#[trigger] types[j]).0,
        )
}

/// Some types list one.
pub open spec fn lists_type(types: Seq<(Kind, nat)>, kind: Kind) -> bool {
    exists|i: int| 0 <= i < types.len() && (#[trigger] types[i]).0 == kind
}

proof fn lemma_kinds_number(values: Seq<Json>, kind: Kind)
    ensures
        times(kinds_of(values), kind) == values.filter(
            |value: Json| kind_of(value) == kind,
        ).len(),
    decreases values.len(),
{
    reveal(Seq::filter);
    if values.len() > 0 {
        lemma_kinds_number(values.drop_last(), kind);
        assert(kinds_of(values).drop_last() =~= kinds_of(values.drop_last()));
        assert(kinds_of(values).last() == kind_of(values.last()));
    }
}

/// Tallied types count the values that have them.
pub proof fn law_tallies_count_types(values: Seq<Json>)
    ensures
        counts_types(counted(kinds_of(values)), values),
{
    let kinds = kinds_of(values);
    let types = counted(kinds);
    let d = distinct(kinds);
    law_distinct(kinds);
    law_distinct_items_are_in_the_order_met(kinds);
    assert(kinds =~= values.map_values(|value: Json| kind_of(value)));
    assert forall|i: int| 0 <= i < types.len() implies (#[trigger] types[i]).1 == values.filter(
        |value: Json| kind_of(value) == types[i].0,
    ).len() && types[i].1 > 0 by {
        lemma_kinds_number(values, types[i].0);
        assert(d.contains(d[i]));
        law_times(kinds, d[i]);
    }
    assert forall|k: int| 0 <= k < values.len() implies lists_type(
        types,
        kind_of(#[trigger] values[k]),
    ) by {
        assert(kinds[k] == kind_of(values[k]));
        assert(kinds.contains(kinds[k]));
        assert(d.contains(kinds[k]));
        let i = choose|i: int| 0 <= i < d.len() && d[i] == kinds[k];
        assert(types[i].0 == kinds[k]);
    }
    assert forall|i: int, j: int| 0 <= i < j < types.len() implies (#[trigger] types[i]).0 != (
    #[trigger] types[j]).0 && first_met_before(
        values.map_values(|value: Json| kind_of(value)),
        types[i].0,
        types[j].0,
    ) by {
        assert(d[i] != d[j]);
        assert(first_met_before(kinds, d[i], d[j]));
    }
}

/// The values of a field are those that its path reaches in each record, in a
/// row, and it is present in the records where there are any.
pub proof fn law_field_values_come_from_every_record(records: Seq<Json>, steps: Seq<Step>)
    ensures
        field_values(records, steps) == records.map_values(
            |record: Json| reached(record, steps),
        ).flatten_alt(),
        present_in(records, steps) == records.filter(
            |record: Json| reached(record, steps).len() > 0,
        ).len(),
    decreases records.len(),
{
    reveal(Seq::filter);
    let f = |record: Json| reached(record, steps);
    if records.len() > 0 {
        law_field_values_come_from_every_record(records.drop_last(), steps);
        assert(records.map_values(f).drop_last() =~= records.drop_last().map_values(f));
    }
}

/// What is said of a field counts what its path reaches, record by record: the
/// records in which it reaches something, the values, their types, and how often
/// each tracked value occurs, as its compact encoding.
pub proof fn law_field_statistics_count_what_is_reached(stats: Stats, i: int)
    requires
        stats.wf(),
        0 <= i < stats.fields@.len(),
    ensures
        ({
            let field = stats.fields@[i];
            let steps = field.path.steps();
            let seen = records(stats.history@);
            let found = seen.map_values(|record: Json| reached(record, steps)).flatten_alt();
            &&& field.present == seen.filter(
                |record: Json| reached(record, steps).len() > 0,
            ).len()
            &&& field.values == found.len()
            &&& counts_types(field.types@, found)
            &&& forall|k: int|
                0 <= k < field.value_counts.values@.len() ==> #[trigger] field.value_counts.values@[k]
                    == found.filter(
                    |value: Json| encoding(value) == field.value_counts.names()[k],
                ).len()
            &&& !field.values_capped ==> forall|k: int|
                0 <= k < found.len() ==> field.value_counts.names().contains(
                    encoding(#[trigger] found[k]),
                )
        }),
{
    let field = stats.fields@[i];
    let steps = field.path.steps();
    let seen = records(stats.history@);
    let found = field_values(seen, steps);
    let names = encodings(found);
    assert(field.describes(seen));
    law_field_values_come_from_every_record(seen, steps);
    law_tallies_count_types(found);
    assert forall|k: int|
        0 <= k < field.value_counts.values@.len() implies #[trigger] field.value_counts.values@[k]
        == found.filter(|value: Json| encoding(value) == field.value_counts.names()[k]).len() by {
        lemma_encodings_number(found, field.value_counts.names()[k]);
        assert(field.value_counts.values@[k] == times(names, field.value_counts.names()[k]));
    }
    if !field.values_capped {
        law_distinct(names);
        assert forall|k: int| 0 <= k < found.len() implies field.value_counts.names().contains(
            encoding(#[trigger] found[k]),
        ) by {
            assert(names[k] == encoding(found[k]));
            assert(names.contains(names[k]));
            assert(distinct(names).contains(names[k]));
            assert(tracked_items(names, MAX_FIELD_VALUES as nat).contains(names[k]));
        }
    }
}

proof fn lemma_encodings_number(values: Seq<Json>, name: Seq<char>)
    ensures
        times(encodings(values), name) == values.filter(
            |value: Json| encoding(value) == name,
        ).len(),
    decreases values.len(),
{
    reveal(Seq::filter);
    if values.len() > 0 {
        lemma_encodings_number(values.drop_last(), name);
        assert(encodings(values).drop_last() =~= encodings(values.drop_last()));
        assert(encodings(values).last() == encoding(values.last()));
    }
}

/// The types of the records are counted, whatever they are.
pub proof fn law_top_level_types_count_records(stats: Stats)
    requires
        stats.wf(),
    ensures
        counts_types(stats.top_level_types@, records(stats.history@)),
        stats.valid == records(stats.history@).len(),
{
    law_tallies_count_types(records(stats.history@));
}

/// A record is an object with a member of the given name.
pub open spec fn has_member(record: Json, key: Seq<char>) -> bool {
    record matches Json::Object(members) && exists|k: int|
        0 <= k < members.len() && (#[trigger] members[k]).0 == key
}

/// The value of a member, if it has the given name.
pub open spec fn value_if_named(member: (Seq<char>, Json), key: Seq<char>) -> Option<Json> {
    if member.0 == key {
        Some(member.1)
    } else {
        None
    }
}

/// The values of the members with the given name, in order; none if the record is
/// no object.
pub open spec fn members_named(record: Json, key: Seq<char>) -> Seq<Json> {
    match record {
        Json::Object(members) => members.filter_map(
            |member: (Seq<char>, Json)| value_if_named(member, key),
        ),
        _ => Seq::empty(),
    }
}

proof fn lemma_sightings_named(members: Seq<(Seq<char>, Json)>, key: Seq<char>)
    ensures
        kinds_at(sightings_of(members), key) == kinds_of(
            members.filter_map(|member: (Seq<char>, Json)| value_if_named(member, key)),
        ),
        names_of(sightings_of(members)).contains(key) <==> exists|k: int|
            0 <= k < members.len() && (#[trigger] members[k]).0 == key,
    decreases members.len(),
{
    let f = |member: (Seq<char>, Json)| value_if_named(member, key);
    let seen = sightings_of(members);
    let names = names_of(seen);
    assert(names.len() == members.len());
    if names.contains(key) {
        let k = choose|k: int| 0 <= k < names.len() && names[k] == key;
        assert(members[k].0 == key);
    }
    if exists|k: int| 0 <= k < members.len() && (#[trigger] members[k]).0 == key {
        let k = choose|k: int| 0 <= k < members.len() && (#[trigger] members[k]).0 == key;
        assert(names[k] == key);
    }
    if members.len() > 0 {
        let head = members.drop_last();
        lemma_sightings_named(head, key);
        assert(seen.drop_last() =~= sightings_of(head));
        assert(seen.last().name == members.last().0);
        assert(kinds_at(seen, key) =~= kinds_of(members.filter_map(f)));
    } else {
        assert(kinds_at(seen, key) =~= kinds_of(members.filter_map(f)));
    }
}

proof fn lemma_record_named(record: Json, key: Seq<char>)
    ensures
        kinds_at(member_sightings(record), key) == kinds_of(members_named(record, key)),
        names_of(member_sightings(record)).contains(key) <==> has_member(record, key),
{
    match record {
        Json::Object(members) => {
            lemma_sightings_named(members, key);
            assert(member_sightings(record) == sightings_of(members));
        },
        _ => {
            assert(names_of(member_sightings(record)).len() == 0);
            assert(kinds_at(member_sightings(record), key) =~= kinds_of(
                members_named(record, key),
            ));
        },
    }
}

proof fn lemma_key_batches_named(records: Seq<Json>, key: Seq<char>)
    ensures
        batches_with(key_batches(records), key) == records.filter(
            |record: Json| has_member(record, key),
        ).len(),
        kinds_at(all_sightings(key_batches(records)), key) == kinds_of(
            records.map_values(|record: Json| members_named(record, key)).flatten_alt(),
        ),
    decreases records.len(),
{
    reveal(Seq::filter);
    let batches = key_batches(records);
    let f = |record: Json| members_named(record, key);
    if records.len() > 0 {
        let head = records.drop_last();
        let last = records.last();
        lemma_key_batches_named(head, key);
        assert(batches.drop_last() =~= key_batches(head));
        assert(batches.last() == member_sightings(last));
        lemma_kinds_concat(all_sightings(batches.drop_last()), batches.last(), key);
        assert(records.map_values(f).drop_last() =~= head.map_values(f));
        lemma_record_named(last, key);
        assert(kinds_of(head.map_values(f).flatten_alt()) + kinds_of(f(last)) =~= kinds_of(
            records.map_values(f).flatten_alt(),
        ));
    } else {
        assert(kinds_at(all_sightings(batches), key) =~= kinds_of(
            records.map_values(f).flatten_alt(),
        ));
    }
}

/// What is said of a key counts the objects among the records that have a member
/// of that name, and the types of all such members; while the table has room,
/// every name that a member has is listed.
pub proof fn law_key_statistics_count_members(stats: Stats, i: int)
    requires
        stats.wf(),
        0 <= i < stats.key_table.values@.len(),
    ensures
        ({
            let entry = stats.key_table.values@[i];
            let seen = records(stats.history@);
            &&& entry.count == seen.filter(|record: Json| has_member(record, entry.key@)).len()
            &&& counts_types(
                entry.types@,
                seen.map_values(|record: Json| members_named(record, entry.key@)).flatten_alt(),
            )
        }),
{
    let entry = stats.key_table.values@[i];
    let seen = records(stats.history@);
    assert(entry.describes(key_batches(seen)));
    lemma_key_batches_named(seen, entry.key@);
    law_tallies_count_types(
        seen.map_values(|record: Json| members_named(record, entry.key@)).flatten_alt(),
    );
}

/// Every key of every record that is an object is listed, unless the table has
/// turned one away.
pub proof fn law_every_key_is_listed(stats: Stats, r: int, k: int)
    requires
        stats.wf(),
        !stats.keys_capped,
        0 <= r < records(stats.history@).len(),
        records(stats.history@)[r] is Object,
        0 <= k < records(stats.history@)[r]->Object_0.len(),
    ensures
        stats.key_table.names().contains(records(stats.history@)[r]->Object_0[k].0),
{
    let seen = records(stats.history@);
    let members = seen[r]->Object_0;
    let key = members[k].0;
    let batches = key_batches(seen);
    let names = names_of(all_sightings(batches));
    assert(batches[r] == sightings_of(members));
    assert(batches[r][k].name == key);
    lemma_batch_is_sighted(batches, r, k);
    law_distinct(names);
    assert(distinct(names).contains(key));
    assert(tracked_items(names, MAX_KEYS as nat).contains(key));
}

/// What stands in a batch is sighted.
pub(crate) proof fn lemma_batch_is_sighted(batches: Seq<Seq<Sighting>>, r: int, k: int)
    requires
        0 <= r < batches.len(),
        0 <= k < batches[r].len(),
    ensures
        names_of(all_sightings(batches)).contains(batches[r][k].name),
    decreases batches.len(),
{
    let head = batches.drop_last();
    let all = all_sightings(batches);
    let earlier = all_sightings(head);
    if r < head.len() {
        assert(head[r] == batches[r]);
        lemma_batch_is_sighted(head, r, k);
        let p = choose|p: int|
            0 <= p < names_of(earlier).len() && names_of(earlier)[p] == batches[r][k].name;
        assert(all[p] == earlier[p]);
        assert(names_of(all)[p] == batches[r][k].name);
    } else {
        assert(all[earlier.len() + k] == batches[r][k]);
        assert(names_of(all)[earlier.len() + k] == batches[r][k].name);
    }
}

/// The keys of a record, in their order.
pub open spec fn keys_of(record: Json) -> Seq<Seq<char>> {
    match record {
        Json::Object(members) => members.map_values(|member: (Seq<char>, Json)| member.0),
        _ => Seq::empty(),
    }
}

proof fn lemma_keys_in_a_row(records: Seq<Json>)
    ensures
        names_of(all_sightings(key_batches(records))) == records.map_values(
            |record: Json| keys_of(record),
        ).flatten_alt(),
    decreases records.len(),
{
    let f = |record: Json| keys_of(record);
    let batches = key_batches(records);
    if records.len() > 0 {
        let head = records.drop_last();
        lemma_keys_in_a_row(head);
        assert(batches.drop_last() =~= key_batches(head));
        assert(batches.last() == member_sightings(records.last()));
        assert(records.map_values(f).drop_last() =~= head.map_values(f));
        assert(names_of(batches.last()) =~= keys_of(records.last()));
        assert(names_of(all_sightings(batches)) =~= names_of(all_sightings(key_batches(head)))
            + keys_of(records.last()));
    } else {
        assert(records.map_values(f).flatten_alt() =~= Seq::empty());
        assert(names_of(all_sightings(batches)) =~= Seq::empty());
    }
}

/// A key is tracked exactly if fewer than 512 other keys came before it.
pub proof fn law_the_first_keys_are_tracked(stats: Stats, p: int)
    requires
        stats.wf(),
        ({
            let keys = records(stats.history@).map_values(
                |record: Json| keys_of(record),
            ).flatten_alt();
            0 <= p < keys.len() && forall|q: int| 0 <= q < p ==> keys[q] != keys[p]
        }),
    ensures
        ({
            let keys = records(stats.history@).map_values(
                |record: Json| keys_of(record),
            ).flatten_alt();
            stats.key_table.names().contains(keys[p]) <==> keys.take(p).to_set().len() < 512
        }),
{
    let seen = records(stats.history@);
    lemma_keys_in_a_row(seen);
    let keys = names_of(all_sightings(key_batches(seen)));
    law_items_are_tracked_while_there_is_room(keys, 512, p);
    assert(same_items(stats.key_table.names(), tracked_items(keys, MAX_KEYS as nat)));
}

/// A text comes before another in byte order: up to some byte they agree, and
/// there the first one ends or has the smaller byte.
pub open spec fn differs_first(a: Seq<char>, b: Seq<char>) -> bool {
    exists|k: int|
        #![trigger encode_utf8(a).take(k)]
        0 <= k <= encode_utf8(a).len() && k < encode_utf8(b).len() && encode_utf8(a).take(k)
            == encode_utf8(b).take(k) && (k == encode_utf8(a).len() || encode_utf8(a)[k]
            < encode_utf8(b)[k])
}

/// A listing of frequent texts counts how often each occurs. Counts never rise
/// along it, and equal counts are in byte order. It is as long as asked for, as
/// far as there are texts. No text that occurs more often than a listed one is left
/// out, unless it was met when 10,000 others were there already.
pub proof fn law_frequent_values_are_listed_first(
    top: Seq<(String, u64)>,
    names: Seq<Seq<char>>,
    n: nat,
)
    requires
        tops(top, names, n),
    ensures
        top.len() <= n,
        top.len() < n && names.to_set().len() <= 10_000 ==> top.len() == names.to_set().len(),
        forall|i: int|
            0 <= i < top.len() ==> (#[trigger] top[i]).1 == names.filter(
                |name: Seq<char>| name == top[i].0@,
            ).len() && top[i].1 > 0,
        forall|i: int, j: int|
            0 <= i < j < top.len() ==> {
                ||| (#[trigger] top[i]).1 > (#[trigger] top[j]).1
                ||| top[i].1 == top[j].1 && differs_first(top[i].0@, top[j].0@)
            },
        names.to_set().len() <= 10_000 ==> forall|k: int, i: int|
            0 <= k < names.len() && 0 <= i < top.len() && names.filter(
                |name: Seq<char>| name == #[trigger] names[k],
            ).len() > (#[trigger] top[i]).1 ==> tops_hold(top, names[k]),
{
    law_distinct(names);
    let d = distinct(names);
    d.unique_seq_to_set();
    assert(d.to_set() =~= names.to_set());
    assert forall|i: int| 0 <= i < top.len() implies (#[trigger] top[i]).1 == names.filter(
        |name: Seq<char>| name == top[i].0@,
    ).len() && top[i].1 > 0 by {
        law_times_counts_equal_items(names, top[i].0@);
        law_times(names, top[i].0@);
        lemma_tracked_items(names, MAX_FIELD_VALUES as nat);
        assert(tracked_items(names, MAX_FIELD_VALUES as nat).contains(top[i].0@));
    }
    assert forall|i: int, j: int| 0 <= i < j < top.len() implies {
        ||| (#[trigger] top[i]).1 > (#[trigger] top[j]).1
        ||| top[i].1 == top[j].1 && differs_first(top[i].0@, top[j].0@)
    } by {
        law_order_goes_by_the_first_difference(encode_utf8(top[i].0@), encode_utf8(top[j].0@));
    }
    if names.to_set().len() <= 10_000 {
        assert forall|k: int, i: int|
            0 <= k < names.len() && 0 <= i < top.len() && names.filter(
                |name: Seq<char>| name == #[trigger] names[k],
            ).len() > (#[trigger] top[i]).1 implies tops_hold(top, names[k]) by {
            law_times_counts_equal_items(names, names[k]);
            assert(d.contains(names[k]));
            assert(tracked_items(names, MAX_FIELD_VALUES as nat).contains(names[k]));
        }
    }
}

/// A listing holds a key.
pub open spec fn lists_key(keys: Seq<&KeyStats>, name: Seq<char>) -> bool {
    exists|i: int| 0 <= i < keys.len() && (#[trigger] keys[i]).key@ == name
}

/// Keys are listed by how many records have them, those in as many records in byte
/// order, and every one that is tracked is listed.
pub proof fn law_keys_are_listed_by_frequency(stats: Stats, keys: Seq<&KeyStats>)
    requires
        stats.wf(),
        lists_keys(keys, key_batches(records(stats.history@))),
    ensures
        keys.len() == stats.key_table.names().len(),
        forall|i: int|
            0 <= i < keys.len() ==> (#[trigger] keys[i]).count == records(stats.history@).filter(
                |record: Json| has_member(record, keys[i].key@),
            ).len(),
        forall|i: int|
            0 <= i < keys.len() ==> counts_types(
                (#[trigger] keys[i]).types@,
                records(stats.history@).map_values(
                    |record: Json| members_named(record, keys[i].key@),
                ).flatten_alt(),
            ),
        forall|i: int, j: int|
            0 <= i < j < keys.len() ==> {
                ||| (#[trigger] keys[i]).count > (#[trigger] keys[j]).count
                ||| keys[i].count == keys[j].count && differs_first(keys[i].key@, keys[j].key@)
            },
        forall|k: int|
            0 <= k < stats.key_table.names().len() ==> lists_key(
                keys,
                #[trigger] stats.key_table.names()[k],
            ),
{
    let seen = records(stats.history@);
    let batches = key_batches(seen);
    let names = names_of(all_sightings(batches));
    let listed = tracked_items(names, MAX_KEYS as nat);
    lemma_tracked_items(names, MAX_KEYS as nat);
    lemma_in_text_order(stats.key_table.names());
    lemma_same_items_len(stats.key_table.names(), listed);
    assert forall|i: int| 0 <= i < keys.len() implies (#[trigger] keys[i]).count == seen.filter(
        |record: Json| has_member(record, keys[i].key@),
    ).len() by {
        assert(keys[i].describes(batches));
        lemma_key_batches_named(seen, keys[i].key@);
    }
    assert forall|i: int| 0 <= i < keys.len() implies counts_types(
        (#[trigger] keys[i]).types@,
        seen.map_values(|record: Json| members_named(record, keys[i].key@)).flatten_alt(),
    ) by {
        assert(keys[i].describes(batches));
        lemma_key_batches_named(seen, keys[i].key@);
        law_tallies_count_types(
            seen.map_values(|record: Json| members_named(record, keys[i].key@)).flatten_alt(),
        );
    }
    assert forall|i: int, j: int| 0 <= i < j < keys.len() implies {
        ||| (#[trigger] keys[i]).count > (#[trigger] keys[j]).count
        ||| keys[i].count == keys[j].count && differs_first(keys[i].key@, keys[j].key@)
    } by {
        law_order_goes_by_the_first_difference(encode_utf8(keys[i].key@), encode_utf8(keys[j].key@));
    }
    assert forall|k: int| 0 <= k < stats.key_table.names().len() implies lists_key(
        keys,
        #[trigger] stats.key_table.names()[k],
    ) by {
        assert(stats.key_table.names().contains(stats.key_table.names()[k]));
        assert(listed.contains(stats.key_table.names()[k]));
    }
}

/// Each figure counts lines: all of them, those that are blank, those that hold a
/// record, their bytes, and the lengths of those that are not blank. The issues are
/// the first of the problems, as many as the limit allows, each with its line, column
/// and reason; the others are counted. The table of keys has turned one away exactly
/// if there are more than 512 different ones.
pub proof fn law_figures_count_lines(stats: Stats)
    requires
        stats.wf(),
    ensures
        stats.lines == stats.history@.len(),
        stats.blank == stats.history@.filter(
            |line: LineModel| finding(line.bytes) is Blank,
        ).len(),
        stats.valid == stats.history@.filter_map(
            |line: LineModel|
                match finding(line.bytes) {
                    Finding::Record(json) => Some(json),
                    _ => None,
                },
        ).len(),
        stats.bytes == stats.history@.fold_left(
            0nat,
            |total: nat, line: LineModel| total + line.raw_len,
        ),
        stats.line_length.describes(
            stats.history@.filter_map(
                |line: LineModel|
                    match finding(line.bytes) {
                        Finding::Blank => None,
                        _ => Some(line.bytes.len() as u64),
                    },
            ),
        ),
        stats.issues@.len() == problems(stats.history@).len() || stats.issues@.len()
            == stats.max_errors,
        stats.issues@.len() <= stats.max_errors,
        stats.issues@.len() + stats.issues_truncated == problems(stats.history@).len(),
        forall|i: int|
            0 <= i < stats.issues@.len() ==> (#[trigger] stats.issues@[i]).line == problems(
                stats.history@,
            )[i].line && stats.issues@[i].column == problems(stats.history@)[i].column
                && stats.issues@[i].reason@ == problems(stats.history@)[i].reason,
        stats.keys_capped <==> records(stats.history@).map_values(
            |record: Json| keys_of(record),
        ).flatten_alt().to_set().len() > 512,
{
    let lines = stats.history@;
    law_lines_are_taken_one_by_one(lines);
    lemma_total_raw_adds_up(lines);
    let kept = problems_of(stats.issues@);
    assert(kept.len() == stats.issues@.len());
    assert forall|i: int| 0 <= i < stats.issues@.len() implies (#[trigger] stats.issues@[i]).line
        == problems(lines)[i].line && stats.issues@[i].column == problems(lines)[i].column
        && stats.issues@[i].reason@ == problems(lines)[i].reason by {
        assert(kept[i] == stats.issues@[i]@);
        assert(kept[i] == problems(lines)[i]);
    }
    lemma_keys_in_a_row(records(lines));
    lemma_turned_away(names_of(all_sightings(key_batches(records(lines)))), 512);
}

proof fn lemma_total_raw_adds_up(lines: Seq<LineModel>)
    ensures
        total_raw(lines) == lines.fold_left(
            0nat,
            |total: nat, line: LineModel| total + line.raw_len,
        ),
    decreases lines.len(),
{
    if lines.len() > 0 {
        lemma_total_raw_adds_up(lines.drop_last());
    }
}

/// A table turns an item away exactly if there are more different ones than it has
/// room for.
pub(crate) proof fn lemma_turned_away(names: Seq<Seq<char>>, cap: nat)
    ensures
        turned_away(names, cap) <==> names.to_set().len() > cap,
{
    law_distinct(names);
    distinct(names).unique_seq_to_set();
    assert(distinct(names).to_set() =~= names.to_set());
}

/// The table of values of a field has turned one away exactly if there are more than
/// 10,000 different ones.
pub proof fn law_fields_are_capped_at_ten_thousand_values(stats: Stats, i: int)
    requires
        stats.wf(),
        0 <= i < stats.fields@.len(),
    ensures
        stats.fields@[i].values_capped <==> encodings(
            field_values(records(stats.history@), stats.fields@[i].path.steps()),
        ).to_set().len() > 10_000,
{
    assert(stats.fields@[i].describes(records(stats.history@)));
    lemma_turned_away(
        encodings(field_values(records(stats.history@), stats.fields@[i].path.steps())),
        10_000,
    );
}

} // verus!
