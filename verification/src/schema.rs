//! Single-pass schema discovery over JSONL input.
//!
//! Where [`crate::stats::FieldStats`] profiles paths the caller already knows
//! to ask about, [`Schema`] finds them: it walks every record's JSON tree up to
//! a bounded depth and, for each distinct path it encounters, tracks how many
//! records contain it and what type of value shows up there.
//!
//! Array elements share one path (`messages[]`, not `messages[0]`,
//! `messages[1]`, ...), so a field common to every message counts once per
//! record for `present` and once per element for `occurrences`.

use crate::catalog::{
    all_sightings, batches_with, extended, kinds_at, last_with, law_batches_with, lemma_extended,
    lemma_kinds_at_len, lemma_kinds_concat, lemma_open_batch, lemma_unseen, names_of, Sighting,
};
use crate::json::value::{items_size, kind_of, members_size, size, Json, Kind, Value};
use crate::lines::{
    lemma_raw_line, lines_after, lines_of, raw_line_len, total_raw, Line, LineModel, LineReader,
};
use crate::record::{
    all_sound, examine, law_every_line_counts_once, law_input_bounds_its_contents, problems,
    records, sound, Found,
};
use crate::stats::{count_sum, law_counts_add_up, Stats, TypeCounts};
use crate::tally::{
    distinct, law_distinct, law_times, lemma_insert_items, lemma_in_text_order,
    lemma_same_items_len, lemma_tracked_items, lemma_tracked_push, same_items, tracked_items,
    turned_away, Table,
};
use crate::text;
use crate::text::{law_text_order, text_before};
use vstd::prelude::*;
use vstd::string::StringExecFns;

verus! {

/// Distinct paths tracked before the table stops growing.
///
/// A per-record UUID key or similarly unbounded key space would otherwise grow
/// this table without limit; past this point further paths are only reflected
/// in [`Schema::paths_capped`].
pub const MAX_PATHS: usize = 2000;

/// The path of an object member.
pub open spec fn member_path(path: Seq<char>, key: Seq<char>) -> Seq<char> {
    if path.len() == 0 {
        key
    } else {
        path + seq!['.'] + key
    }
}

/// The path that the elements of an array share.
pub open spec fn element_path(path: Seq<char>) -> Seq<char> {
    path + seq!['[', ']']
}

/// The paths below a value, with the types found there, in the order of a walk
/// that goes `levels` deep.
pub open spec fn visits(json: Json, path: Seq<char>, levels: nat) -> Seq<Sighting>
    decreases levels, 0nat, 0nat,
{
    if levels == 0 {
        Seq::empty()
    } else {
        match json {
            Json::Object(members) => member_visits(members, path, (levels - 1) as nat),
            Json::Array(items) => item_visits(items, element_path(path), (levels - 1) as nat),
            _ => Seq::empty(),
        }
    }
}

/// The paths of some members and, up to `levels` deeper, of what is below them.
pub open spec fn member_visits(
    members: Seq<(Seq<char>, Json)>,
    path: Seq<char>,
    levels: nat,
) -> Seq<Sighting>
    decreases levels, 1nat, members.len(),
{
    if members.len() == 0 {
        Seq::empty()
    } else {
        let (key, child) = members.last();
        let here = member_path(path, key);
        member_visits(members.drop_last(), path, levels).push(
            Sighting { name: here, kind: kind_of(child) },
        ) + visits(child, here, levels)
    }
}

/// The path of some elements, once for each, and, up to `levels` deeper, of what
/// is below them.
pub open spec fn item_visits(items: Seq<Json>, here: Seq<char>, levels: nat) -> Seq<Sighting>
    decreases levels, 1nat, items.len(),
{
    if items.len() == 0 {
        Seq::empty()
    } else {
        item_visits(items.drop_last(), here, levels).push(
            Sighting { name: here, kind: kind_of(items.last()) },
        ) + visits(items.last(), here, levels)
    }
}

/// What a walk through some records meets, a batch for each.
pub open spec fn path_batches(records: Seq<Json>, depth: nat) -> Seq<Seq<Sighting>> {
    records.map_values(|r: Json| visits(r, Seq::empty(), depth))
}

/// A walk meets no more paths than there are values below the root.
proof fn lemma_visits_count(json: Json, path: Seq<char>, levels: nat)
    ensures
        visits(json, path, levels).len() + 1 <= size(json),
    decreases levels, 0nat, 0nat,
{
    assert(size(json) >= 1);
    if levels > 0 {
        match json {
            Json::Object(members) => {
                lemma_member_visits_count(members, path, (levels - 1) as nat);
                assert(size(json) == 1 + members_size(members));
            },
            Json::Array(items) => {
                lemma_item_visits_count(items, element_path(path), (levels - 1) as nat);
                assert(size(json) == 1 + items_size(items));
            },
            _ => {},
        }
    }
}

proof fn lemma_member_visits_count(
    members: Seq<(Seq<char>, Json)>,
    path: Seq<char>,
    levels: nat,
)
    ensures
        member_visits(members, path, levels).len() <= members_size(members),
    decreases levels, 1nat, members.len(),
{
    if members.len() > 0 {
        let (key, child) = members.last();
        lemma_member_visits_count(members.drop_last(), path, levels);
        lemma_visits_count(child, member_path(path, key), levels);
    }
}

proof fn lemma_item_visits_count(items: Seq<Json>, here: Seq<char>, levels: nat)
    ensures
        item_visits(items, here, levels).len() <= items_size(items),
    decreases levels, 1nat, items.len(),
{
    if items.len() > 0 {
        lemma_item_visits_count(items.drop_last(), here, levels);
        lemma_visits_count(items.last(), here, levels);
    }
}

/// Presence and type counts for one path discovered in the data.
#[derive(Debug, Clone)]
pub struct PathStats {
    /// The path, e.g. `meta.source` or `messages[].role`.
    pub path: String,
    /// Records in which this path resolved to at least one value.
    pub present: u64,
    /// Total values seen at this path (more than `present` when it runs
    /// through an array).
    pub occurrences: u64,
    /// The types of every value seen at this path.
    pub types: TypeCounts,
    /// The last record that contained this path, counting from 1.
    pub last_record: u64,
}

impl PathStats {
    /// What is known of the path follows from what was met in some records, a
    /// batch for each.
    pub open spec fn describes(&self, batches: Seq<Seq<Sighting>>) -> bool {
        &&& self.present == batches_with(batches, self.path@)
        &&& self.occurrences == kinds_at(all_sightings(batches), self.path@).len()
        &&& self.types.tallies(kinds_at(all_sightings(batches), self.path@))
        &&& self.last_record == last_with(batches, self.path@)
    }
}

/// A table tracks the paths met in some records, up to [`MAX_PATHS`] of them.
pub open spec fn tracks_paths(table: Table<PathStats>, batches: Seq<Seq<Sighting>>) -> bool {
    &&& table.wf()
    &&& same_items(
        table.names(),
        tracked_items(names_of(all_sightings(batches)), MAX_PATHS as nat),
    )
    &&& forall|i: int|
        0 <= i < table.values@.len() ==> (#[trigger] table.values@[i]).path@ == table.names()[i]
            && table.values@[i].describes(batches)
}

/// A table that tracks paths has turned one away.
pub open spec fn paths_overflow(batches: Seq<Seq<Sighting>>) -> bool {
    turned_away(names_of(all_sightings(batches)), MAX_PATHS as nat)
}

/// The batches with more sightings in the last of them.
spec fn continued(batches: Seq<Seq<Sighting>>, sightings: Seq<Sighting>) -> Seq<Seq<Sighting>> {
    batches.drop_last().push(batches.last() + sightings)
}

proof fn lemma_continued(batches: Seq<Seq<Sighting>>, sightings: Seq<Sighting>)
    requires
        batches.len() > 0,
    ensures
        continued(batches, sightings).len() == batches.len(),
        all_sightings(continued(batches, sightings)) == all_sightings(batches) + sightings,
        continued(batches, Seq::empty()) == batches,
        forall|s: Sighting|
            #[trigger] extended(continued(batches, sightings), s) == continued(
                batches,
                sightings.push(s),
            ),
        forall|t: Seq<Sighting>|
            #[trigger] continued(continued(batches, sightings), t) == continued(
                batches,
                sightings + t,
            ),
{
    let more = continued(batches, sightings);
    assert(more.drop_last() =~= batches.drop_last());
    assert(all_sightings(more) =~= all_sightings(batches) + sightings);
    assert(batches.last() + Seq::<Sighting>::empty() =~= batches.last());
    assert(continued(batches, Seq::empty()) =~= batches);
    assert forall|s: Sighting| #[trigger] extended(more, s) == continued(
        batches,
        sightings.push(s),
    ) by {
        assert((batches.last() + sightings).push(s) =~= batches.last() + sightings.push(s));
    }
    assert forall|t: Seq<Sighting>| #[trigger] continued(more, t) == continued(
        batches,
        sightings + t,
    ) by {
        assert((batches.last() + sightings) + t =~= batches.last() + (sightings + t));
    }
}

/// Takes in one path, met in the record with the given number. The result says
/// whether the table had no room for it.
fn record_path(
    table: &mut Table<PathStats>,
    path: &str,
    kind: Kind,
    record: u64,
    Ghost(batches): Ghost<Seq<Seq<Sighting>>>,
) -> (full: bool)
    requires
        tracks_paths(*old(table), batches),
        batches.len() == record > 0,
        all_sightings(batches).len() < u64::MAX,
    ensures
        tracks_paths(*final(table), extended(batches, Sighting { name: path@, kind })),
        paths_overflow(extended(batches, Sighting { name: path@, kind })) == (paths_overflow(
            batches,
        ) || full),
{
    let ghost sighting = Sighting { name: path@, kind };
    let ghost more = extended(batches, sighting);
    let ghost names = names_of(all_sightings(batches));
    let ghost listed = tracked_items(names, MAX_PATHS as nat);
    proof {
        lemma_extended(batches, sighting, path@);
        lemma_tracked_push(names, MAX_PATHS as nat, path@);
        lemma_tracked_items(names, MAX_PATHS as nat);
        lemma_kinds_at_len(all_sightings(batches), path@);
        law_batches_with(batches, path@);
    }
    match table.find(path) {
        Ok(at) => {
            let ghost before = *table;
            let ghost kinds = kinds_at(all_sightings(batches), path@);
            let old_present: u64 = table.values[at].present;
            let old_occurrences: u64 = table.values[at].occurrences;
            let old_last: u64 = table.values[at].last_record;
            assert(table.values@[at as int].path@ == path@);
            assert(table.names().contains(path@));
            assert(listed.contains(path@));
            table.values[at].occurrences = old_occurrences + 1;
            table.values[at].types.record(kind, Ghost(kinds));
            if old_last != record {
                table.values[at].present = old_present + 1;
                table.values[at].last_record = record;
            }
            proof {
                assert(table.names() =~= before.names());
                assert forall|i: int| 0 <= i < table.values@.len() implies (
                #[trigger] table.values@[i]).path@ == table.names()[i]
                    && table.values@[i].describes(more) by {
                    assert(before.values@[i].describes(batches));
                    assert(before.values@[i].path@ == before.names()[i]);
                    if i != at {
                        lemma_in_text_order(before.names());
                        assert(before.names()[i] != before.names()[at as int]);
                        assert(table.values@[i] == before.values@[i]);
                        lemma_extended(batches, sighting, before.names()[i]);
                    } else {
                        assert(table.values@[i].path@ == path@);
                        assert(table.values@[i].types.tallies(kinds.push(kind)));
                    }
                }
            }
            false
        },
        Err(at) => {
            proof {
                lemma_in_text_order(table.names());
                lemma_same_items_len(table.names(), listed);
                assert(!listed.contains(path@));
            }
            if table.len() < MAX_PATHS {
                let mut types: TypeCounts = TypeCounts::default();
                types.record(kind, Ghost(Seq::empty()));
                let ghost before = *table;
                let entry = PathStats {
                    path: path.to_owned(),
                    present: 1,
                    occurrences: 1,
                    types,
                    last_record: record,
                };
                proof {
                    lemma_unseen(batches, path@);
                    lemma_insert_items(before.names(), at as int, path@, listed);
                    assert(entry.describes(more));
                }
                table.insert(at, path.to_owned(), entry);
                proof {
                    assert forall|i: int| 0 <= i < table.values@.len() implies (
                    #[trigger] table.values@[i]).path@ == table.names()[i]
                        && table.values@[i].describes(more) by {
                        if i != at {
                            let i0 = if i < at {
                                i
                            } else {
                                i - 1
                            };
                            assert(table.values@[i] == before.values@[i0]);
                            assert(table.names()[i] == before.names()[i0]);
                            assert(before.values@[i0].describes(batches));
                            assert(before.names().contains(before.names()[i0]));
                            assert(before.names()[i0] != path@);
                            assert(before.values@[i0].path@ == before.names()[i0]);
                            lemma_extended(batches, sighting, before.names()[i0]);
                        }
                    }
                }
                false
            } else {
                proof {
                    assert forall|i: int| 0 <= i < table.values@.len() implies (
                    #[trigger] table.values@[i]).path@ == table.names()[i]
                        && table.values@[i].describes(more) by {
                        assert(table.values@[i].describes(batches));
                        assert(table.names().contains(table.names()[i]));
                        assert(table.names()[i] != path@);
                        lemma_extended(batches, sighting, table.names()[i]);
                    }
                }
                true
            }
        },
    }
}

/// The path of an object member.
fn join_member(path: &str, key: &str) -> (joined: String)
    ensures
        joined@ == member_path(path@, key@),
{
    if path.is_empty() {
        assert(path@ =~= Seq::empty());
        return key.to_owned();
    }
    let mut joined: String = path.to_owned();
    text::append_scalar(&mut joined, 0x2E);
    joined.append(key);
    assert(joined@ =~= member_path(path@, key@));
    joined
}

/// The path that the elements of an array share.
fn join_element(path: &str) -> (joined: String)
    ensures
        joined@ == element_path(path@),
{
    let mut joined: String = path.to_owned();
    text::append_scalar(&mut joined, 0x5B);
    text::append_scalar(&mut joined, 0x5D);
    assert(joined@ =~= element_path(path@));
    joined
}

/// Takes in the paths below a value. The result says whether the table had no
/// room for some of them.
fn walk(
    table: &mut Table<PathStats>,
    value: &Value,
    path: &str,
    levels: usize,
    record: u64,
    Ghost(batches): Ghost<Seq<Seq<Sighting>>>,
) -> (full: bool)
    requires
        tracks_paths(*old(table), batches),
        batches.len() == record > 0,
        all_sightings(batches).len() + size(value.json()) <= u64::MAX,
    ensures
        tracks_paths(
            *final(table),
            continued(batches, visits(value.json(), path@, levels as nat)),
        ),
        paths_overflow(continued(batches, visits(value.json(), path@, levels as nat))) == (
        paths_overflow(batches) || full),
    decreases levels, 0nat,
{
    proof {
        lemma_continued(batches, Seq::empty());
    }
    if levels == 0 {
        return false;
    }
    let mut full: bool = false;
    match value {
        Value::Object(members) => {
            let ghost model = value.json()->Object_0;
            let ghost left = (levels - 1) as nat;
            let mut i: usize = 0;
            assert(model.take(0) =~= Seq::empty());
            proof {
                assert(size(value.json()) == 1 + members_size(model));
            }
            while i < members.len()
                invariant
                    i <= members@.len(),
                    *value == Value::Object(*members),
                    model == value.json()->Object_0,
                    model.len() == members@.len(),
                    levels > 0,
                    left == levels - 1,
                    batches.len() == record > 0,
                    tracks_paths(
                        *table,
                        continued(batches, member_visits(model.take(i as int), path@, left)),
                    ),
                    paths_overflow(
                        continued(batches, member_visits(model.take(i as int), path@, left)),
                    ) == (paths_overflow(batches) || full),
                    all_sightings(batches).len() + 1 + members_size(model) <= u64::MAX,
                decreases members@.len() - i,
            {
                let ghost done = member_visits(model.take(i as int), path@, left);
                let ghost child = members@[i as int].1.json();
                let joined: String = join_member(path, members[i].0.as_str());
                let ghost seen = Sighting { name: joined@, kind: kind_of(child) };
                proof {
                    let upto = model.take(i + 1);
                    assert(upto.drop_last() =~= model.take(i as int));
                    assert(upto.last() == (members@[i as int].0@, child));
                    lemma_member_visits_count(model.take(i as int), path@, left);
                    lemma_members_size_grows(model, i + 1);
                    lemma_continued(batches, done);
                    lemma_continued(batches, done.push(seen));
                    lemma_visits_count(child, joined@, left);
                }
                if visit(
                    table,
                    &members[i].1,
                    joined.as_str(),
                    levels - 1,
                    record,
                    Ghost(continued(batches, done)),
                ) {
                    full = true;
                }
                proof {
                    let below = visits(child, joined@, left);
                    assert(seq![seen] + below =~= Seq::<Sighting>::empty().push(seen) + below);
                    assert(done + (seq![seen] + below) =~= done.push(seen) + below);
                }
                i = i + 1;
            }
            assert(model.take(i as int) =~= model);
        },
        Value::Array(items) => {
            let ghost model = value.json()->Array_0;
            let ghost left = (levels - 1) as nat;
            let joined: String = join_element(path);
            let mut i: usize = 0;
            assert(model.take(0) =~= Seq::empty());
            proof {
                assert(size(value.json()) == 1 + items_size(model));
            }
            while i < items.len()
                invariant
                    i <= items@.len(),
                    *value == Value::Array(*items),
                    model == value.json()->Array_0,
                    model.len() == items@.len(),
                    levels > 0,
                    left == levels - 1,
                    joined@ == element_path(path@),
                    batches.len() == record > 0,
                    tracks_paths(
                        *table,
                        continued(batches, item_visits(model.take(i as int), joined@, left)),
                    ),
                    paths_overflow(
                        continued(batches, item_visits(model.take(i as int), joined@, left)),
                    ) == (paths_overflow(batches) || full),
                    all_sightings(batches).len() + 1 + items_size(model) <= u64::MAX,
                decreases items@.len() - i,
            {
                let ghost done = item_visits(model.take(i as int), joined@, left);
                let ghost child = items@[i as int].json();
                let ghost seen = Sighting { name: joined@, kind: kind_of(child) };
                proof {
                    let upto = model.take(i + 1);
                    assert(upto.drop_last() =~= model.take(i as int));
                    assert(upto.last() == child);
                    lemma_item_visits_count(model.take(i as int), joined@, left);
                    lemma_items_size_grows(model, i + 1);
                    lemma_continued(batches, done);
                    lemma_visits_count(child, joined@, left);
                }
                if visit(
                    table,
                    &items[i],
                    joined.as_str(),
                    levels - 1,
                    record,
                    Ghost(continued(batches, done)),
                ) {
                    full = true;
                }
                proof {
                    let below = visits(child, joined@, left);
                    assert(done + (seq![seen] + below) =~= done.push(seen) + below);
                }
                i = i + 1;
            }
            assert(model.take(i as int) =~= model);
        },
        _ => {},
    }
    full
}

/// Takes in a path and the paths below its value.
fn visit(
    table: &mut Table<PathStats>,
    value: &Value,
    path: &str,
    levels: usize,
    record: u64,
    Ghost(batches): Ghost<Seq<Seq<Sighting>>>,
) -> (full: bool)
    requires
        tracks_paths(*old(table), batches),
        batches.len() == record > 0,
        all_sightings(batches).len() + 1 + size(value.json()) <= u64::MAX,
    ensures
        tracks_paths(
            *final(table),
            continued(
                batches,
                seq![Sighting { name: path@, kind: kind_of(value.json()) }] + visits(
                    value.json(),
                    path@,
                    levels as nat,
                ),
            ),
        ),
        paths_overflow(
            continued(
                batches,
                seq![Sighting { name: path@, kind: kind_of(value.json()) }] + visits(
                    value.json(),
                    path@,
                    levels as nat,
                ),
            ),
        ) == (paths_overflow(batches) || full),
    decreases levels, 1nat,
{
    let ghost seen = Sighting { name: path@, kind: kind_of(value.json()) };
    proof {
        lemma_continued(batches, Seq::empty());
        lemma_continued(batches, seq![seen]);
        assert(Seq::<Sighting>::empty().push(seen) =~= seq![seen]);
        assert(extended(batches, seen) == continued(batches, seq![seen]));
    }
    let full_here: bool = record_path(table, path, value.kind(), record, Ghost(batches));
    let full_below: bool = walk(
        table,
        value,
        path,
        levels,
        record,
        Ghost(extended(batches, seen)),
    );
    full_here || full_below
}

proof fn lemma_members_size_grows(members: Seq<(Seq<char>, Json)>, i: int)
    requires
        0 <= i <= members.len(),
    ensures
        members_size(members.take(i)) <= members_size(members),
    decreases members.len() - i,
{
    if i == members.len() {
        assert(members.take(i) =~= members);
    } else {
        lemma_members_size_grows(members, i + 1);
        assert(members.take(i + 1).drop_last() =~= members.take(i));
    }
}

proof fn lemma_items_size_grows(items: Seq<Json>, i: int)
    requires
        0 <= i <= items.len(),
    ensures
        items_size(items.take(i)) <= items_size(items),
    decreases items.len() - i,
{
    if i == items.len() {
        assert(items.take(i) =~= items);
    } else {
        lemma_items_size_grows(items, i + 1);
        assert(items.take(i + 1).drop_last() =~= items.take(i));
    }
}

/// Options controlling a [`Schema`] pass.
#[derive(Debug, Clone)]
pub struct SchemaOptions {
    /// How many path segments to descend. A key or an array's `[]` accessor
    /// each count as one segment, so `messages[].role` is depth 3.
    pub depth: usize,
}

impl Default for SchemaOptions {
    fn default() -> (options: Self)
        ensures
            options.depth == 3,
    {
        SchemaOptions { depth: 3 }
    }
}

/// A listing holds, in byte order, every tracked path that is present in at
/// least `min_present` records, once.
pub open spec fn lists_paths(
    paths: Seq<&PathStats>,
    batches: Seq<Seq<Sighting>>,
    min_present: nat,
) -> bool {
    let listed = tracked_items(names_of(all_sightings(batches)), MAX_PATHS as nat);
    &&& forall|i: int|
        0 <= i < paths.len() ==> (#[trigger] paths[i]).describes(batches) && listed.contains(
            paths[i].path@,
        ) && paths[i].present >= min_present
    &&& forall|i: int, j: int|
        0 <= i < j < paths.len() ==> text_before(
            (#[trigger] paths[i]).path@,
            (#[trigger] paths[j]).path@,
        )
    &&& forall|name: Seq<char>| #[trigger]
        listed.contains(name) && batches_with(batches, name) >= min_present ==> lists(paths, name)
}

/// A listing holds a path.
pub open spec fn lists(paths: Seq<&PathStats>, name: Seq<char>) -> bool {
    exists|i: int| 0 <= i < paths.len() && (#[trigger] paths[i]).path@ == name
}

/// The result of a pass over JSONL input.
#[derive(Clone)]
pub struct Schema {
    /// Records that parsed as a complete JSON value.
    pub records: u64,
    /// Lines that were neither blank nor parsed.
    pub unparseable: u64,
    /// True once the path table hit [`MAX_PATHS`] and further distinct paths
    /// stopped being tracked individually.
    pub paths_capped: bool,
    /// The tracked paths.
    pub path_table: Table<PathStats>,
    /// How many path segments to descend.
    pub depth: usize,
    /// The lines that the schema is about.
    pub history: Ghost<Seq<LineModel>>,
}

impl Schema {
    /// What was met in the records, a batch for each.
    pub open spec fn batches(&self) -> Seq<Seq<Sighting>> {
        path_batches(records(self.history@), self.depth as nat)
    }

    /// The schema is exactly that of the lines taken in.
    pub open spec fn wf(&self) -> bool {
        &&& all_sound(self.history@)
        &&& self.records == records(self.history@).len()
        &&& self.unparseable == problems(self.history@).len()
        &&& tracks_paths(self.path_table, self.batches())
        &&& self.paths_capped == paths_overflow(self.batches())
    }

    /// The schema of no lines at all.
    pub fn new(options: &SchemaOptions) -> (schema: Self)
        ensures
            schema.wf(),
            schema.depth == options.depth,
            schema.history@ == Seq::<LineModel>::empty(),
    {
        let schema = Schema {
            records: 0,
            unparseable: 0,
            paths_capped: false,
            path_table: Table::new(),
            depth: options.depth,
            history: Ghost(Seq::empty()),
        };
        proof {
            assert(schema.batches() =~= Seq::empty());
            assert(names_of(all_sightings(schema.batches())) =~= Seq::empty());
        }
        schema
    }

    /// Runs a full pass over `input`, splitting it into lines and walking each
    /// parsed record's tree.
    pub fn from_reader(input: &[u8], options: SchemaOptions) -> (schema: Schema)
        requires
            input@.len() < usize::MAX,
        ensures
            schema.wf(),
            schema.depth == options.depth,
            schema.history@ == lines_of(input@),
    {
        let mut schema = Schema::new(&options);
        let mut lines = LineReader::new(input);
        let ghost mut rest = input@;
        assert(Seq::empty() + lines_of(input@) =~= lines_of(input@));
        loop
            invariant
                schema.wf(),
                schema.depth == options.depth,
                lines.wf(),
                rest == lines.rest(),
                input@.len() < usize::MAX,
                lines_of(input@) == schema.history@ + lines_after(rest, lines.lines()),
                total_raw(schema.history@) + rest.len() == input@.len(),
            decreases rest.len(),
        {
            proof {
                lemma_raw_line(rest);
            }
            match lines.read_line() {
                None => {
                    assert(schema.history@ + lines_after(rest, lines.lines()) =~= schema.history@);
                    return schema;
                },
                Some(line) => {
                    let ghost before = schema.history@;
                    let ghost n = raw_line_len(rest) as int;
                    let ghost number = lines.lines();
                    schema.add_line(&line);
                    proof {
                        assert(before.push(line@).drop_last() =~= before);
                        assert(before + (seq![line@] + lines_after(rest.skip(n), number)) =~= before.push(
                            line@,
                        ) + lines_after(rest.skip(n), number));
                        rest = lines.rest();
                    }
                },
            }
        }
    }

    /// Takes in the next line.
    pub fn add_line(&mut self, line: &Line)
        requires
            old(self).wf(),
            line.wf(),
            line.bytes@.len() < usize::MAX,
            total_raw(old(self).history@) + line.raw_len <= u64::MAX,
        ensures
            final(self).wf(),
            final(self).depth == old(self).depth,
            final(self).history@ == old(self).history@.push(line@),
    {
        let ghost before = self.history@;
        let ghost after = before.push(line@);
        let ghost seen = records(before);
        let ghost depth = self.depth as nat;
        proof {
            assert(after.drop_last() =~= before);
            assert(all_sound(after)) by {
                assert(sound(line@));
            }
            law_every_line_counts_once(after);
            law_every_line_counts_once(before);
            law_input_bounds_its_contents(after);
        }
        self.history = Ghost(after);
        match examine(line) {
            Found::Blank => {},
            Found::Broken(_, _) => {
                self.unparseable = self.unparseable + 1;
            },
            Found::Record(value) => {
                let ghost json = value.json();
                let ghost batches = path_batches(seen, depth);
                proof {
                    assert(seen.push(json).drop_last() =~= seen);
                    lemma_visit_total(seen, depth);
                    lemma_open_batch(batches, Seq::empty());
                    lemma_tracks_open_batch(self.path_table, batches);
                    assert(Seq::<Sighting>::empty() + visits(json, Seq::empty(), depth) =~= visits(
                        json,
                        Seq::empty(),
                        depth,
                    ));
                    assert(batches.push(Seq::empty()).drop_last() =~= batches);
                    assert(path_batches(seen.push(json), depth) =~= continued(
                        batches.push(Seq::empty()),
                        visits(json, Seq::empty(), depth),
                    ));
                    reveal_strlit("");
                    assert(""@ =~= Seq::empty());
                }
                self.records = self.records + 1;
                if walk(
                    &mut self.path_table,
                    &value,
                    "",
                    self.depth,
                    self.records,
                    Ghost(batches.push(Seq::empty())),
                ) {
                    self.paths_capped = true;
                }
            },
        }
    }

    /// Discovered paths that are present in at least `min_present` records,
    /// ordered so that a path always follows its parent (plain lexicographic
    /// order).
    pub fn paths(&self, min_present: u64) -> (paths: Vec<&PathStats>)
        requires
            self.wf(),
        ensures
            lists_paths(paths@, self.batches(), min_present as nat),
    {
        let table = &self.path_table;
        let ghost names = table.names();
        let mut paths: Vec<&PathStats> = Vec::new();
        let ghost mut places: Seq<int> = Seq::empty();
        let mut i: usize = 0;
        while i < table.values.len()
            invariant
                i <= table.values@.len(),
                paths@.len() == places.len(),
                forall|k: int|
                    0 <= k < places.len() ==> 0 <= #[trigger] places[k] < i && paths@[k]
                        == table.values@[places[k]] && paths@[k].present >= min_present,
                forall|k: int, j: int|
                    0 <= k < j < places.len() ==> #[trigger] places[k] < #[trigger] places[j],
                forall|k: int|
                    0 <= k < i && (#[trigger] table.values@[k]).present >= min_present
                        ==> places.contains(k),
            decreases table.values@.len() - i,
        {
            let ghost earlier = places;
            if table.values[i].present >= min_present {
                paths.push(&table.values[i]);
                proof {
                    places = earlier.push(i as int);
                    assert(places[earlier.len() as int] == i);
                }
            }
            proof {
                assert forall|k: int|
                    0 <= k < i + 1 && (#[trigger] table.values@[k]).present >= min_present implies places.contains(
                k) by {
                    if k < i {
                        assert(earlier.contains(k));
                        let j = choose|j: int| 0 <= j < earlier.len() && earlier[j] == k;
                        assert(places[j] == k);
                    }
                }
            }
            i = i + 1;
        }
        proof {
            let batches = self.batches();
            let listed = tracked_items(names_of(all_sightings(batches)), MAX_PATHS as nat);
            assert forall|k: int| 0 <= k < paths@.len() implies (#[trigger] paths@[k]).describes(
                batches,
            ) && listed.contains(paths@[k].path@) && paths@[k].present >= min_present by {
                let at = places[k];
                assert(table.values@[at].path@ == names[at]);
                assert(names.contains(names[at]));
            }
            assert forall|k: int, j: int| 0 <= k < j < paths@.len() implies text_before(
                (#[trigger] paths@[k]).path@,
                (#[trigger] paths@[j]).path@,
            ) by {
                assert(places[k] < places[j]);
                assert(table.values@[places[k]].path@ == names[places[k]]);
                assert(table.values@[places[j]].path@ == names[places[j]]);
            }
            assert forall|name: Seq<char>| #[trigger]
                listed.contains(name) && batches_with(batches, name) >= min_present implies lists(
                paths@,
                name,
            ) by {
                assert(names.contains(name));
                let at = choose|at: int| 0 <= at < names.len() && names[at] == name;
                assert(table.values@[at].path@ == names[at]);
                assert(table.values@[at].describes(batches));
                assert(places.contains(at));
                let k = choose|k: int| 0 <= k < places.len() && places[k] == at;
                assert(paths@[k].path@ == name);
            }
        }
        paths
    }
}

/// A table keeps up with a record that holds no paths.
proof fn lemma_tracks_open_batch(table: Table<PathStats>, batches: Seq<Seq<Sighting>>)
    requires
        tracks_paths(table, batches),
    ensures
        tracks_paths(table, batches.push(Seq::empty())),
{
    let more = batches.push(Seq::empty());
    lemma_open_batch(batches, Seq::empty());
    assert forall|i: int| 0 <= i < table.values@.len() implies (#[trigger] table.values@[i]).path@
        == table.names()[i] && table.values@[i].describes(more) by {
        lemma_open_batch(batches, table.values@[i].path@);
    }
}

/// A walk through some records meets no more paths than they hold values,
/// without the records themselves.
proof fn lemma_visit_total(records: Seq<Json>, depth: nat)
    ensures
        all_sightings(path_batches(records, depth)).len() + records.len() <= items_size(records),
    decreases records.len(),
{
    let batches = path_batches(records, depth);
    if records.len() > 0 {
        lemma_visit_total(records.drop_last(), depth);
        lemma_visits_count(records.last(), Seq::empty(), depth);
        assert(batches.drop_last() =~= path_batches(records.drop_last(), depth));
        assert(batches.last() == visits(records.last(), Seq::empty(), depth));
    }
}

/// A path is present in no more records than there are, and occurs at least as
/// often as it is present; its types add up to its occurrences.
pub proof fn law_presence_and_occurrences(schema: Schema, i: int)
    requires
        schema.wf(),
        0 <= i < schema.path_table.values@.len(),
    ensures
        1 <= schema.path_table.values@[i].present <= schema.records,
        schema.path_table.values@[i].present <= schema.path_table.values@[i].occurrences,
        count_sum(schema.path_table.values@[i].types@) == schema.path_table.values@[i].occurrences,
{
    let entry = schema.path_table.values@[i];
    let batches = schema.batches();
    let names = names_of(all_sightings(batches));
    assert(entry.describes(batches));
    law_batches_with(batches, entry.path@);
    law_counts_add_up(kinds_at(all_sightings(batches), entry.path@));
    assert(entry.path@ == schema.path_table.names()[i]);
    assert(schema.path_table.names().contains(entry.path@));
    lemma_tracked_items(names, MAX_PATHS as nat);
    assert(names.contains(entry.path@));
    lemma_seen_in_a_batch(batches, entry.path@);
}

/// What is sighted stands in a batch.
pub(crate) proof fn lemma_seen_in_a_batch(batches: Seq<Seq<Sighting>>, name: Seq<char>)
    requires
        names_of(all_sightings(batches)).contains(name),
    ensures
        batches_with(batches, name) >= 1,
    decreases batches.len(),
{
    let all = all_sightings(batches);
    let k = choose|k: int| 0 <= k < names_of(all).len() && names_of(all)[k] == name;
    assert(all[k].name == name);
    let earlier = all_sightings(batches.drop_last());
    if k < earlier.len() {
        assert(names_of(earlier)[k] == name);
        lemma_seen_in_a_batch(batches.drop_last(), name);
    } else {
        assert(names_of(batches.last())[k - earlier.len()] == name);
    }
}

/// The table of paths is bounded, and full once it has turned a path away.
pub proof fn law_path_table_is_bounded(schema: Schema)
    requires
        schema.wf(),
    ensures
        schema.path_table.names().len() <= MAX_PATHS,
        schema.paths_capped ==> schema.path_table.names().len() == MAX_PATHS,
        MAX_PATHS == 2000,
{
    let names = names_of(all_sightings(schema.batches()));
    lemma_tracked_items(names, MAX_PATHS as nat);
    lemma_in_text_order(schema.path_table.names());
    lemma_same_items_len(schema.path_table.names(), tracked_items(names, MAX_PATHS as nat));
}

/// What a deeper walk meets at a path, it meets at least as often as a
/// shallower one.
proof fn lemma_deeper_visits(json: Json, path: Seq<char>, low: nat, high: nat, name: Seq<char>)
    requires
        low <= high,
    ensures
        kinds_at(visits(json, path, low), name).len() <= kinds_at(
            visits(json, path, high),
            name,
        ).len(),
    decreases low, 0nat, 0nat,
{
    if low > 0 {
        match json {
            Json::Object(members) => {
                lemma_deeper_member_visits(
                    members,
                    path,
                    (low - 1) as nat,
                    (high - 1) as nat,
                    name,
                );
            },
            Json::Array(items) => {
                lemma_deeper_item_visits(
                    items,
                    element_path(path),
                    (low - 1) as nat,
                    (high - 1) as nat,
                    name,
                );
            },
            _ => {},
        }
    }
}

proof fn lemma_deeper_member_visits(
    members: Seq<(Seq<char>, Json)>,
    path: Seq<char>,
    low: nat,
    high: nat,
    name: Seq<char>,
)
    requires
        low <= high,
    ensures
        kinds_at(member_visits(members, path, low), name).len() <= kinds_at(
            member_visits(members, path, high),
            name,
        ).len(),
    decreases low, 1nat, members.len(),
{
    if members.len() > 0 {
        let head = members.drop_last();
        let (key, child) = members.last();
        let here = member_path(path, key);
        lemma_deeper_member_visits(head, path, low, high, name);
        lemma_deeper_visits(child, here, low, high, name);
        let own = Sighting { name: here, kind: kind_of(child) };
        lemma_kinds_after(member_visits(head, path, low), own, visits(child, here, low), name);
        lemma_kinds_after(member_visits(head, path, high), own, visits(child, here, high), name);
    }
}

proof fn lemma_deeper_item_visits(
    items: Seq<Json>,
    here: Seq<char>,
    low: nat,
    high: nat,
    name: Seq<char>,
)
    requires
        low <= high,
    ensures
        kinds_at(item_visits(items, here, low), name).len() <= kinds_at(
            item_visits(items, here, high),
            name,
        ).len(),
    decreases low, 1nat, items.len(),
{
    if items.len() > 0 {
        let head = items.drop_last();
        let child = items.last();
        lemma_deeper_item_visits(head, here, low, high, name);
        lemma_deeper_visits(child, here, low, high, name);
        let own = Sighting { name: here, kind: kind_of(child) };
        lemma_kinds_after(item_visits(head, here, low), own, visits(child, here, low), name);
        lemma_kinds_after(item_visits(head, here, high), own, visits(child, here, high), name);
    }
}

/// The types under a name, where one sighting and then others follow some.
proof fn lemma_kinds_after(
    before: Seq<Sighting>,
    own: Sighting,
    below: Seq<Sighting>,
    name: Seq<char>,
)
    ensures
        kinds_at(before.push(own) + below, name).len() == kinds_at(before, name).len() + (
        if own.name == name {
            1nat
        } else {
            0nat
        }) + kinds_at(below, name).len(),
{
    lemma_kinds_concat(before.push(own), below, name);
    assert(before.push(own).drop_last() =~= before);
}

proof fn lemma_deeper_batches(records: Seq<Json>, low: nat, high: nat, name: Seq<char>)
    requires
        low <= high,
    ensures
        kinds_at(all_sightings(path_batches(records, low)), name).len() <= kinds_at(
            all_sightings(path_batches(records, high)),
            name,
        ).len(),
        batches_with(path_batches(records, low), name) <= batches_with(
            path_batches(records, high),
            name,
        ),
    decreases records.len(),
{
    if records.len() > 0 {
        let head = records.drop_last();
        let a = path_batches(records, low);
        let b = path_batches(records, high);
        assert(a.drop_last() =~= path_batches(head, low));
        assert(b.drop_last() =~= path_batches(head, high));
        assert(a.last() == visits(records.last(), Seq::empty(), low));
        assert(b.last() == visits(records.last(), Seq::empty(), high));
        lemma_deeper_batches(head, low, high, name);
        lemma_deeper_visits(records.last(), Seq::empty(), low, high, name);
        lemma_kinds_concat(all_sightings(a.drop_last()), a.last(), name);
        lemma_kinds_concat(all_sightings(b.drop_last()), b.last(), name);
        lemma_kinds_at_len(a.last(), name);
        lemma_kinds_at_len(b.last(), name);
        law_times(names_of(a.last()), name);
        law_times(names_of(b.last()), name);
    }
}

/// A deeper walk through the same lines lists every path that a shallower one
/// lists, present in at least as many records and with at least as many
/// occurrences, as long as its table has turned no path away.
pub proof fn law_deeper_walks_meet_more(
    low: Schema,
    high: Schema,
    shallow: Seq<&PathStats>,
    deep: Seq<&PathStats>,
    i: int,
) -> (j: int)
    requires
        low.wf(),
        high.wf(),
        low.history@ == high.history@,
        low.depth <= high.depth,
        !high.paths_capped,
        lists_paths(shallow, low.batches(), 0),
        lists_paths(deep, high.batches(), 0),
        0 <= i < shallow.len(),
    ensures
        0 <= j < deep.len(),
        deep[j].path@ == shallow[i].path@,
        deep[j].present >= shallow[i].present,
        deep[j].occurrences >= shallow[i].occurrences,
{
    let name = shallow[i].path@;
    let seen = records(low.history@);
    let fewer = names_of(all_sightings(low.batches()));
    let more = names_of(all_sightings(high.batches()));
    assert(shallow[i].describes(low.batches()));
    lemma_tracked_items(fewer, MAX_PATHS as nat);
    assert(tracked_items(fewer, MAX_PATHS as nat).contains(name));
    assert(fewer.contains(name));
    lemma_deeper_batches(seen, low.depth as nat, high.depth as nat, name);
    lemma_kinds_at_len(all_sightings(low.batches()), name);
    lemma_kinds_at_len(all_sightings(high.batches()), name);
    law_times(fewer, name);
    law_times(more, name);
    law_distinct(more);
    assert(distinct(more).contains(name));
    assert(tracked_items(more, MAX_PATHS as nat).contains(name));
    assert(lists(deep, name));
    let j = choose|j: int| 0 <= j < deep.len() && (#[trigger] deep[j]).path@ == name;
    assert(deep[j].describes(high.batches()));
    j
}

/// A walk that may not descend lists no path.
pub proof fn law_no_depth_no_paths(schema: Schema, paths: Seq<&PathStats>, min_present: nat)
    requires
        schema.wf(),
        schema.depth == 0,
        lists_paths(paths, schema.batches(), min_present),
    ensures
        paths.len() == 0,
        schema.path_table.names().len() == 0,
        !schema.paths_capped,
{
    let batches = schema.batches();
    let names = names_of(all_sightings(batches));
    lemma_nothing_met(records(schema.history@));
    assert(names.len() == 0);
    law_distinct(names);
    lemma_tracked_items(names, MAX_PATHS as nat);
    let listed = tracked_items(names, MAX_PATHS as nat);
    assert(listed.len() == 0);
    if paths.len() > 0 {
        assert(listed.contains(paths[0].path@));
    }
    lemma_in_text_order(schema.path_table.names());
    lemma_same_items_len(schema.path_table.names(), listed);
}

proof fn lemma_nothing_met(records: Seq<Json>)
    ensures
        all_sightings(path_batches(records, 0)).len() == 0,
    decreases records.len(),
{
    let batches = path_batches(records, 0);
    if records.len() > 0 {
        lemma_nothing_met(records.drop_last());
        assert(batches.drop_last() =~= path_batches(records.drop_last(), 0));
        assert(batches.last() == visits(records.last(), Seq::empty(), 0));
    }
}

/// Whatever the options, a schema and statistics of the same lines agree on what
/// is a record and what is broken; together these are the lines that are not
/// blank.
pub proof fn law_schema_and_statistics_agree(schema: Schema, stats: Stats)
    requires
        schema.wf(),
        stats.wf(),
        schema.history@ == stats.history@,
    ensures
        schema.records == stats.valid,
        schema.unparseable == problems(stats.history@).len(),
        schema.unparseable == stats.lines - stats.blank - stats.valid,
        schema.records + schema.unparseable == stats.lines - stats.blank,
{
    law_every_line_counts_once(schema.history@);
}

/// Paths are listed in one way only.
pub proof fn law_one_way_to_list_paths(
    a: Seq<&PathStats>,
    b: Seq<&PathStats>,
    batches: Seq<Seq<Sighting>>,
    min_present: nat,
    i: int,
)
    requires
        lists_paths(a, batches, min_present),
        lists_paths(b, batches, min_present),
        0 <= i < a.len(),
    ensures
        i < b.len(),
        a[i].path@ == b[i].path@,
        a[i].present == b[i].present,
        a[i].occurrences == b[i].occurrences,
        a[i].types@ == b[i].types@,
    decreases i,
{
    let listed = tracked_items(names_of(all_sightings(batches)), MAX_PATHS as nat);
    assert forall|k: int| 0 <= k < i implies k < b.len() && (#[trigger] a[k]).path@ == b[k].path@ by {
        law_one_way_to_list_paths(a, b, batches, min_present, k);
    }
    let x = a[i].path@;
    assert(a[i].describes(batches));
    assert(listed.contains(x) && batches_with(batches, x) >= min_present);
    assert(lists(b, x));
    let j = choose|j: int| 0 <= j < b.len() && (#[trigger] b[j]).path@ == x;
    if j < i {
        assert(a[j].path@ == b[j].path@);
        law_text_order(x, x, x);
    }
    let y = b[i].path@;
    assert(b[i].describes(batches));
    if x != y {
        assert(listed.contains(y) && batches_with(batches, y) >= min_present);
        assert(lists(a, y));
        let k = choose|k: int| 0 <= k < a.len() && (#[trigger] a[k]).path@ == y;
        law_text_order(x, y, x);
        if k < i {
            assert(a[k].path@ == b[k].path@);
            law_text_order(y, y, y);
        }
    }
}

/// Whatever is met below a value has a path that continues the value's own.
proof fn lemma_paths_continue(json: Json, path: Seq<char>, levels: nat, k: int)
    requires
        0 <= k < visits(json, path, levels).len(),
    ensures
        continues(visits(json, path, levels)[k].name, path),
    decreases levels, 0nat, 0nat,
{
    match json {
        Json::Object(members) => {
            lemma_member_paths_continue(members, path, (levels - 1) as nat, k);
        },
        Json::Array(items) => {
            lemma_item_paths_continue(items, path, (levels - 1) as nat, k);
        },
        _ => {},
    }
}

/// A path starts with another and, unless that is empty, goes on.
spec fn continues(longer: Seq<char>, path: Seq<char>) -> bool {
    &&& path.len() <= longer.len()
    &&& longer.take(path.len() as int) == path
    &&& path.len() > 0 ==> path.len() < longer.len()
}

proof fn lemma_continues(longest: Seq<char>, longer: Seq<char>, path: Seq<char>)
    requires
        continues(longest, longer),
        continues(longer, path),
    ensures
        continues(longest, path),
{
    let n = path.len() as int;
    assert(longest.take(n) =~= longest.take(longer.len() as int).take(n));
}

proof fn lemma_member_paths_continue(
    members: Seq<(Seq<char>, Json)>,
    path: Seq<char>,
    levels: nat,
    k: int,
)
    requires
        0 <= k < member_visits(members, path, levels).len(),
    ensures
        continues(member_visits(members, path, levels)[k].name, path),
    decreases levels, 1nat, members.len(),
{
    let (key, child) = members.last();
    let here = member_path(path, key);
    let head = member_visits(members.drop_last(), path, levels);
    let n = head.len() as int;
    assert(here.take(path.len() as int) =~= path);
    if k < n {
        lemma_member_paths_continue(members.drop_last(), path, levels, k);
    } else if k > n {
        let below = visits(child, here, levels);
        lemma_paths_continue(child, here, levels, k - n - 1);
        assert(member_visits(members, path, levels)[k] == below[k - n - 1]);
        lemma_continues(below[k - n - 1].name, here, path);
    }
}

proof fn lemma_item_paths_continue(items: Seq<Json>, path: Seq<char>, levels: nat, k: int)
    requires
        0 <= k < item_visits(items, element_path(path), levels).len(),
    ensures
        continues(item_visits(items, element_path(path), levels)[k].name, path),
    decreases levels, 1nat, items.len(),
{
    let here = element_path(path);
    let head = item_visits(items.drop_last(), here, levels);
    let n = head.len() as int;
    assert(here.take(path.len() as int) =~= path);
    if k < n {
        lemma_item_paths_continue(items.drop_last(), path, levels, k);
    } else if k > n {
        let below = visits(items.last(), here, levels);
        lemma_paths_continue(items.last(), here, levels, k - n - 1);
        assert(item_visits(items, here, levels)[k] == below[k - n - 1]);
        lemma_continues(below[k - n - 1].name, here, path);
    }
}

/// Every path that is met below a value comes after the value's own path in
/// byte order, so that a listing has a path after its parent.
pub proof fn law_paths_follow_their_parents(json: Json, path: Seq<char>, levels: nat, k: int)
    requires
        path.len() > 0,
        0 <= k < visits(json, path, levels).len(),
    ensures
        text_before(path, visits(json, path, levels)[k].name),
{
    let name = visits(json, path, levels)[k].name;
    lemma_paths_continue(json, path, levels, k);
    assert(name =~= path + name.skip(path.len() as int));
    text::lemma_continuation_after(path, name.skip(path.len() as int));
}

} // verus!
