//! Field paths: how they are written, and what they reach in a value.
//!
//! A path is a dot-separated chain of object member names, each optionally
//! followed by one or more `[...]` array accessors: an index (`[0]`, `[-1]`),
//! or a wildcard (`[]`) that fans out to every element. A path may also start
//! with a bare accessor (`[0].id`) for records that are themselves arrays.

use crate::json::value::{
    items_size, jsons, law_first_member_is_found, lemma_item_size, lemma_items_count,
    lemma_items_size_concat, lemma_member_size, member, size, Json, Value,
};
use crate::number::{
    append_decimal, decimal, is_digit, law_numbers_read_back, parse_i64, signed_decimal, spelled,
};
use crate::text;
use vstd::prelude::*;
use vstd::string::{StringExecFns, StringSliceAdditionalSpecFns};
use vstd::utf8::{decode_first_scalar, decode_utf8, encode_utf8, valid_utf8};

verus! {

/// One step of a path, as mathematics.
pub enum Step {
    Key(Seq<char>),
    Index(int),
    Wildcard,
}

/// What a text is as a path: its steps, or an error and the byte position that
/// it belongs to.
pub enum PathReading {
    Path(Seq<Step>),
    Bad(nat, Seq<char>),
}

/// A byte that ends a member name.
pub open spec fn ends_name(byte: u8) -> bool {
    byte == 0x2E || byte == 0x5B || byte == 0x5D
}

/// The first position from `i` on at which a member name ends.
pub open spec fn name_end(b: Seq<u8>, i: nat) -> nat
    decreases b.len() - i,
{
    if i < b.len() && !ends_name(b[i as int]) {
        name_end(b, i + 1)
    } else {
        i
    }
}

/// The first position from `i` on that holds a closing bracket.
pub open spec fn bracket_end(b: Seq<u8>, i: nat) -> nat
    decreases b.len() - i,
{
    if i < b.len() && b[i as int] != 0x5D {
        bracket_end(b, i + 1)
    } else {
        i
    }
}

/// What stands between two brackets: nothing is the wildcard, and anything else
/// has to be a 64-bit index.
pub open spec fn accessor(inner: Seq<u8>) -> Option<Step> {
    if inner.len() == 0 {
        Some(Step::Wildcard)
    } else {
        match spelled(inner, true) {
            Some(n) => if i64::MIN <= n <= i64::MAX {
                Some(Step::Index(n))
            } else {
                None
            },
            None => None,
        }
    }
}

/// The array accessors from `i` on, after the steps `done`: the steps with
/// them, and where they end. An error stands beside its position.
pub open spec fn accessors_at(b: Seq<u8>, i: nat, done: Seq<Step>) -> Result<
    (Seq<Step>, nat),
    (nat, Seq<char>),
>
    decreases b.len() - i,
{
    if i < b.len() && b[i as int] == 0x5B {
        proof {
            lemma_bracket_end(b, i + 1);
        }
        let close = bracket_end(b, i + 1);
        if close >= b.len() {
            Err((i, "unterminated '['"@))
        } else {
            let inner = b.subrange(i as int + 1, close as int);
            match accessor(inner) {
                Some(step) => accessors_at(b, close + 1, done.push(step)),
                None => Err(
                    (i + 1, "invalid array index '"@ + decode_utf8(inner) + "'"@),
                ),
            }
        }
    } else {
        Ok((done, i))
    }
}

/// The rest of a path from the part at `i` on, after the steps `done`. Only the
/// first part of a path may lack a name.
pub open spec fn parts_at(b: Seq<u8>, i: nat, first: bool, done: Seq<Step>) -> PathReading
    decreases b.len() - i,
{
    let end = name_end(b, i);
    if end == i && !first {
        PathReading::Bad(i, "empty path segment"@)
    } else {
        let named = if end == i {
            done
        } else {
            done.push(Step::Key(decode_utf8(b.subrange(i as int, end as int))))
        };
        match accessors_at(b, end, named) {
            Err((p, message)) => PathReading::Bad(p, message),
            Ok((steps, next)) => if end == i && next == end {
                PathReading::Bad(i, "empty field path"@)
            } else if next >= b.len() {
                PathReading::Path(steps)
            } else if b[next as int] != 0x2E {
                PathReading::Bad(
                    next,
                    "unexpected '"@ + seq![decode_first_scalar(b.skip(next as int)) as char]
                        + "'"@,
                )
            } else if next + 1 == b.len() {
                PathReading::Bad(next + 1, "trailing '.'"@)
            } else {
                proof {
                    lemma_name_end(b, i);
                    lemma_accessors_end(b, end, named);
                }
                parts_at(b, next + 1, false, steps)
            },
        }
    }
}

/// A text as a path.
pub open spec fn path_of(text: Seq<char>) -> PathReading {
    parts_at(encode_utf8(text), 0, true, Seq::empty())
}

/// The place of an array element, counted from the end if the index is
/// negative.
pub open spec fn place_of(index: int, len: nat) -> Option<int> {
    let place = if index >= 0 {
        index
    } else {
        len + index
    };
    if 0 <= place < len {
        Some(place)
    } else {
        None
    }
}

/// What one step reaches in a value.
pub open spec fn step_into(json: Json, step: Step) -> Seq<Json> {
    match (json, step) {
        (Json::Object(members), Step::Key(key)) => match member(members, key) {
            Some(found) => seq![found],
            None => Seq::empty(),
        },
        (Json::Array(items), Step::Index(index)) => match place_of(index, items.len()) {
            Some(place) => seq![items[place]],
            None => Seq::empty(),
        },
        (Json::Array(items), Step::Wildcard) => items,
        _ => Seq::empty(),
    }
}

/// What one step reaches in each of some values, in order.
pub open spec fn step_into_all(values: Seq<Json>, step: Step) -> Seq<Json>
    decreases values.len(),
{
    if values.len() == 0 {
        Seq::empty()
    } else {
        step_into_all(values.drop_last(), step) + step_into(values.last(), step)
    }
}

/// What a chain of steps reaches in a value, in order.
pub open spec fn reached(root: Json, steps: Seq<Step>) -> Seq<Json>
    decreases steps.len(),
{
    if steps.len() == 0 {
        seq![root]
    } else {
        step_into_all(reached(root, steps.drop_last()), steps.last())
    }
}

pub proof fn lemma_bracket_end(b: Seq<u8>, i: nat)
    ensures
        i <= bracket_end(b, i),
        i <= b.len() ==> bracket_end(b, i) <= b.len(),
        bracket_end(b, i) < b.len() ==> b[bracket_end(b, i) as int] == 0x5D,
        forall|k: int| i <= k < bracket_end(b, i) ==> #[trigger] b[k] != 0x5D,
    decreases b.len() - i,
{
    if i < b.len() && b[i as int] != 0x5D {
        lemma_bracket_end(b, i + 1);
    }
}

pub proof fn lemma_name_end(b: Seq<u8>, i: nat)
    ensures
        i <= name_end(b, i),
        i <= b.len() ==> name_end(b, i) <= b.len(),
        name_end(b, i) < b.len() ==> ends_name(b[name_end(b, i) as int]),
    decreases b.len() - i,
{
    if i < b.len() && !ends_name(b[i as int]) {
        lemma_name_end(b, i + 1);
    }
}

pub proof fn lemma_accessors_end(b: Seq<u8>, i: nat, done: Seq<Step>)
    ensures
        accessors_at(b, i, done) matches Ok((_, end)) ==> i <= end,
    decreases b.len() - i,
{
    if i < b.len() && b[i as int] == 0x5B {
        let close = bracket_end(b, i + 1);
        lemma_bracket_end(b, i + 1);
        if close < b.len() {
            match accessor(b.subrange(i as int + 1, close as int)) {
                Some(step) => {
                    lemma_accessors_end(b, close + 1, done.push(step));
                },
                None => {},
            }
        }
    }
}

/// One step in a [`FieldPath`].
#[derive(Debug, PartialEq, Eq)]
pub enum Segment {
    /// An object member name.
    Key(String),
    /// A single array element. Negative indices count from the end, so `-1`
    /// is the last element.
    Index(i64),
    /// Every element of an array.
    Wildcard,
}

/// The steps that some segments stand for.
pub open spec fn steps_of(segments: Seq<Segment>) -> Seq<Step> {
    segments.map_values(|s: Segment| s.step())
}

impl Segment {
    /// The step that the segment stands for.
    pub open spec fn step(&self) -> Step {
        match self {
            Segment::Key(key) => Step::Key(key@),
            Segment::Index(index) => Step::Index(*index as int),
            Segment::Wildcard => Step::Wildcard,
        }
    }
}

impl Clone for Segment {
    fn clone(&self) -> (copy: Self)
        ensures
            copy.step() == self.step(),
    {
        match self {
            Segment::Key(key) => Segment::Key(key.clone()),
            Segment::Index(index) => Segment::Index(*index),
            Segment::Wildcard => Segment::Wildcard,
        }
    }
}

/// A malformed field path, together with the byte offset that caused it.
#[derive(Debug, Clone, PartialEq, Eq)]
pub struct PathError {
    /// Zero-based byte offset into the parsed path.
    pub position: usize,
    /// What went wrong.
    pub message: String,
}

impl PathError {
    /// The error as one line of text.
    pub fn to_text(&self) -> (text: String)
        ensures
            text@ == "at position "@ + decimal(self.position as nat) + ": "@ + self.message@,
    {
        let mut out: String = "at position ".to_owned();
        append_decimal(&mut out, self.position as u64);
        out.append(": ");
        out.append(self.message.as_str());
        out
    }
}

/// A parsed field path, as written on the command line.
#[derive(Debug, PartialEq, Eq)]
pub struct FieldPath {
    raw: String,
    segments: Vec<Segment>,
}

impl Clone for FieldPath {
    fn clone(&self) -> (copy: Self)
        ensures
            copy.text() == self.text(),
            copy.steps() == self.steps(),
    {
        let mut segments: Vec<Segment> = Vec::new();
        let mut i: usize = 0;
        while i < self.segments.len()
            invariant
                i <= self.segments@.len(),
                segments@.len() == i,
                forall|k: int| 0 <= k < i ==> #[trigger] segments@[k].step() == self.segments@[k].step(),
            decreases self.segments@.len() - i,
        {
            segments.push(self.segments[i].clone());
            i = i + 1;
        }
        let copy: FieldPath = FieldPath { raw: self.raw.clone(), segments };
        assert(copy.steps() =~= self.steps());
        copy
    }
}

/// The position of an array element, or `None` if the index is out of range.
fn normalize_index(index: i64, len: usize) -> (place: Option<usize>)
    ensures
        match place {
            Some(p) => place_of(index as int, len as nat) == Some(p as int),
            None => place_of(index as int, len as nat) is None,
        },
{
    if index >= 0 {
        if (index as u64) < len as u64 {
            Some(index as usize)
        } else {
            None
        }
    } else {
        let back: u64 = (-(index + 1)) as u64 + 1;
        if back <= len as u64 {
            Some(len - back as usize)
        } else {
            None
        }
    }
}

/// What one segment reaches in each of some values, in order.
fn step_all<'v>(values: &Vec<&'v Value>, segment: &Segment) -> (next: Vec<&'v Value>)
    ensures
        jsons(next@) == step_into_all(jsons(values@), segment.step()),
{
    let mut next: Vec<&'v Value> = Vec::new();
    let ghost model = jsons(values@);
    let ghost step = segment.step();
    let mut i: usize = 0;
    assert(jsons(next@) =~= step_into_all(model.take(0), step));
    while i < values.len()
        invariant
            i <= values@.len(),
            model == jsons(values@),
            step == segment.step(),
            jsons(next@) == step_into_all(model.take(i as int), step),
        decreases values@.len() - i,
    {
        let value: &'v Value = values[i];
        let ghost before = next@;
        proof {
            assert(model.take(i + 1).drop_last() =~= model.take(i as int));
            assert(model.take(i + 1).last() == value.json());
        }
        match segment {
            Segment::Key(key) => {
                match value.get(key.as_str()) {
                    Some(found) => {
                        next.push(found);
                    },
                    None => {},
                }
            },
            Segment::Index(index) => {
                match value.as_array() {
                    Some(items) => {
                        match normalize_index(*index, items.len()) {
                            Some(place) => {
                                next.push(&items[place]);
                            },
                            None => {},
                        }
                    },
                    None => {},
                }
            },
            Segment::Wildcard => {
                match value.as_array() {
                    Some(items) => {
                        let ghost elements = value.json()->Array_0;
                        let mut k: usize = 0;
                        assert(jsons(next@) =~= jsons(before) + elements.take(0));
                        while k < items.len()
                            invariant
                                k <= items@.len(),
                                elements == Seq::new(items@.len(), |j: int| items@[j].json()),
                                jsons(next@) == jsons(before) + elements.take(k as int),
                            decreases items@.len() - k,
                        {
                            let ghost so_far = next@;
                            next.push(&items[k]);
                            assert(jsons(next@) =~= jsons(so_far).push(items@[k as int].json()));
                            assert(elements.take(k + 1) =~= elements.take(k as int).push(
                                elements[k as int],
                            ));
                            assert(jsons(next@) =~= jsons(before) + elements.take(k + 1));
                            k = k + 1;
                        }
                        assert(elements.take(k as int) =~= elements);
                    },
                    None => {},
                }
            },
        }
        assert(jsons(next@) =~= jsons(before) + step_into(value.json(), step));
        i = i + 1;
    }
    assert(model.take(i as int) =~= model);
    next
}

fn bad_index(inner: &str) -> (message: String)
    ensures
        message@ == "invalid array index '"@ + inner@ + "'"@,
{
    let mut message: String = "invalid array index '".to_owned();
    message.append(inner);
    message.append("'");
    message
}

fn unexpected(bad: &str) -> (message: String)
    ensures
        message@ == "unexpected '"@ + bad@ + "'"@,
{
    let mut message: String = "unexpected '".to_owned();
    message.append(bad);
    message.append("'");
    message
}

/// Reads the array accessors from `start` on.
fn read_accessors(
    input: &str,
    b: &[u8],
    start: usize,
    segments: &mut Vec<Segment>,
) -> (read: Result<usize, PathError>)
    requires
        b@ == input.spec_bytes(),
        text::is_cut(b@, start as int),
    ensures
        read matches Ok(end) ==> text::is_cut(b@, end as int),
        match (read, accessors_at(b@, start as nat, steps_of(old(segments)@))) {
            (Ok(end), Ok((steps, e))) => end == e && start <= end <= b@.len() && steps_of(
                final(segments)@,
            ) == steps,
            (Err(error), Err((p, message))) => error.position == p && error.message@ == message,
            _ => false,
        },
{
    let mut i: usize = start;
    while i < b.len() && b[i] == 0x5B
        invariant
            b@ == input.spec_bytes(),
            start <= i,
            text::is_cut(b@, i as int),
            accessors_at(b@, start as nat, steps_of(old(segments)@)) == accessors_at(
                b@,
                i as nat,
                steps_of(segments@),
            ),
        decreases b@.len() - i,
    {
        let idx_start: usize = i + 1;
        let mut close: usize = idx_start;
        while close < b.len() && b[close] != 0x5D
            invariant
                idx_start <= close <= b@.len(),
                bracket_end(b@, idx_start as nat) == bracket_end(b@, close as nat),
            decreases b@.len() - close,
        {
            close = close + 1;
        }
        if close >= b.len() {
            return Err(PathError { position: i, message: "unterminated '['".to_owned() });
        }
        proof {
            vstd::utf8::encode_utf8_valid_utf8(input@);
            text::lemma_next_cut(b@, i as int);
        }
        let inner = text::slice(input, idx_start, close);
        let ghost before = segments@;
        if inner.is_empty() {
            segments.push(Segment::Wildcard);
        } else {
            match parse_i64(inner) {
                Some(n) => {
                    segments.push(Segment::Index(n));
                },
                None => {
                    return Err(PathError { position: idx_start, message: bad_index(inner) });
                },
            }
        }
        assert(steps_of(segments@) =~= steps_of(before).push(segments@.last().step()));
        proof {
            text::lemma_next_cut(b@, close as int);
        }
        i = close + 1;
    }
    Ok(i)
}

impl FieldPath {
    /// The path as it was written.
    pub closed spec fn text(&self) -> Seq<char> {
        self.raw@
    }

    /// The steps of the path, in order.
    pub closed spec fn steps(&self) -> Seq<Step> {
        steps_of(self.segments@)
    }

    /// Parses a path such as `meta.source` or `messages[].role`.
    pub fn parse(input: &str) -> (parsed: Result<FieldPath, PathError>)
        ensures
            match (parsed, path_of(input@)) {
                (Ok(path), PathReading::Path(steps)) => path.steps() == steps && path.text()
                    == input@ && steps.len() >= 1 && forall|k: int|
                    0 <= k < steps.len() ==> writable(#[trigger] steps[k]),
                (Err(error), PathReading::Bad(p, message)) => error.position == p
                    && error.message@ == message,
                _ => false,
            },
    {
        let b = input.as_bytes();
        let mut segments: Vec<Segment> = Vec::new();
        let mut i: usize = 0;
        let mut first: bool = true;
        proof {
            law_parsed_paths_are_writable(input@);
            vstd::utf8::encode_utf8_valid_utf8(input@);
            assert(steps_of(segments@) =~= Seq::empty());
            if b@.len() > 0 {
                assert(!vstd::utf8::is_continuation_byte(b@[0]));
            }
        }
        loop
            invariant
                b@ == input.spec_bytes(),
                valid_utf8(b@),
                i <= b@.len(),
                text::is_cut(b@, i as int),
                path_of(input@) == parts_at(b@, i as nat, first, steps_of(segments@)),
                path_of(input@) matches PathReading::Path(steps) ==> steps.len() >= 1 && forall|
                    k: int,
                |
                    0 <= k < steps.len() ==> writable(#[trigger] steps[k]),
            decreases b@.len() - i,
        {
            let name_start: usize = i;
            let mut end: usize = i;
            while end < b.len() && b[end] != 0x2E && b[end] != 0x5B && b[end] != 0x5D
                invariant
                    name_start <= end <= b@.len(),
                    name_end(b@, name_start as nat) == name_end(b@, end as nat),
                decreases b@.len() - end,
            {
                end = end + 1;
            }
            if end == name_start {
                if !first {
                    return Err(
                        PathError {
                            position: name_start,
                            message: "empty path segment".to_owned(),
                        },
                    );
                }
            } else {
                let name = text::slice(input, name_start, end);
                let ghost before = segments@;
                segments.push(Segment::Key(name.to_owned()));
                assert(steps_of(segments@) =~= steps_of(before).push(segments@.last().step()));
            }
            let next: usize = match read_accessors(input, b, end, &mut segments) {
                Ok(next) => next,
                Err(error) => {
                    return Err(error);
                },
            };
            if end == name_start && next == end {
                return Err(
                    PathError { position: name_start, message: "empty field path".to_owned() },
                );
            }
            if next >= b.len() {
                return Ok(FieldPath { raw: input.to_owned(), segments });
            }
            proof {
                text::lemma_next_cut(b@, next as int);
            }
            if b[next] != 0x2E {
                let width: usize = text::scalar_width(b, next);
                proof {
                    text::lemma_one_scalar(b@.skip(next as int));
                    assert(b@.subrange(next as int, next + width) =~= b@.skip(next as int).take(
                        width as int,
                    ));
                }
                return Err(
                    PathError {
                        position: next,
                        message: unexpected(text::slice(input, next, next + width)),
                    },
                );
            }
            if next + 1 == b.len() {
                return Err(PathError { position: next + 1, message: "trailing '.'".to_owned() });
            }
            first = false;
            i = next + 1;
        }
    }

    /// The path's segments, in order.
    pub fn segments(&self) -> (segments: &[Segment])
        ensures
            steps_of(segments@) == self.steps(),
    {
        self.segments.as_slice()
    }

    /// Every value the path reaches inside `root`.
    ///
    /// A wildcard or an index into a value that is not an array simply
    /// contributes nothing, rather than being an error: most records in a
    /// dataset will not match every path.
    pub fn resolve<'v>(&self, root: &'v Value) -> (values: Vec<&'v Value>)
        ensures
            jsons(values@) == reached(root.json(), self.steps()),
    {
        let mut current: Vec<&'v Value> = Vec::new();
        current.push(root);
        let ghost steps = self.steps();
        let mut i: usize = 0;
        assert(jsons(current@) =~= reached(root.json(), steps.take(0)));
        while i < self.segments.len()
            invariant
                i <= self.segments@.len(),
                steps == steps_of(self.segments@),
                jsons(current@) == reached(root.json(), steps.take(i as int)),
            decreases self.segments@.len() - i,
        {
            current = step_all(&current, &self.segments[i]);
            proof {
                assert(steps.take(i + 1).drop_last() =~= steps.take(i as int));
                assert(steps.take(i + 1).last() == self.segments@[i as int].step());
            }
            i = i + 1;
        }
        assert(steps.take(i as int) =~= steps);
        current
    }

    /// The path as it was written.
    pub fn as_text(&self) -> (text: &str)
        ensures
            text@ == self.text(),
    {
        self.raw.as_str()
    }
}

proof fn lemma_step_size(json: Json, step: Step)
    ensures
        items_size(step_into(json, step)) <= size(json),
{
    match (json, step) {
        (Json::Object(members), Step::Key(key)) => {
            law_first_member_is_found(members, key);
            match member(members, key) {
                Some(found) => {
                    let k = choose|k: int|
                        0 <= k < members.len() && #[trigger] members[k] == (key, found)
                            && forall|j: int| 0 <= j < k ==> (#[trigger] members[j]).0 != key;
                    lemma_member_size(members, k);
                    assert(seq![found].drop_last() =~= Seq::empty());
                    assert(items_size(seq![found]) == items_size(Seq::empty()) + size(found));
                },
                None => {},
            }
        },
        (Json::Array(items), Step::Index(index)) => {
            match place_of(index, items.len()) {
                Some(place) => {
                    lemma_item_size(items, place);
                    assert(seq![items[place]].drop_last() =~= Seq::empty());
                    assert(items_size(seq![items[place]]) == items_size(Seq::empty()) + size(
                        items[place],
                    ));
                },
                None => {},
            }
        },
        _ => {},
    }
}

proof fn lemma_step_all_size(values: Seq<Json>, step: Step)
    ensures
        items_size(step_into_all(values, step)) <= items_size(values),
    decreases values.len(),
{
    if values.len() > 0 {
        lemma_step_all_size(values.drop_last(), step);
        lemma_step_size(values.last(), step);
        lemma_items_size_concat(
            step_into_all(values.drop_last(), step),
            step_into(values.last(), step),
        );
    }
}

/// A path reaches parts of the record that do not overlap, so no more values
/// than the record holds.
pub proof fn law_reached_values_fit_the_record(root: Json, steps: Seq<Step>)
    ensures
        items_size(reached(root, steps)) <= size(root),
        reached(root, steps).len() <= size(root),
    decreases steps.len(),
{
    if steps.len() > 0 {
        law_reached_values_fit_the_record(root, steps.drop_last());
        lemma_step_all_size(reached(root, steps.drop_last()), steps.last());
    } else {
        assert(seq![root].drop_last() =~= Seq::empty());
        assert(items_size(seq![root]) == items_size(Seq::empty()) + size(root));
    }
    lemma_items_count(reached(root, steps));
}

/// A path without a wildcard reaches at most one value.
pub proof fn law_only_wildcards_fan_out(root: Json, steps: Seq<Step>)
    requires
        forall|k: int| 0 <= k < steps.len() ==> !(#[trigger] steps[k] is Wildcard),
    ensures
        reached(root, steps).len() <= 1,
    decreases steps.len(),
{
    if steps.len() > 0 {
        let before = reached(root, steps.drop_last());
        law_only_wildcards_fan_out(root, steps.drop_last());
        assert(!(steps[steps.len() - 1] is Wildcard));
        if before.len() == 1 {
            assert(before.drop_last().len() == 0);
            assert(step_into_all(before.drop_last(), steps.last()).len() == 0);
        }
    }
}

/// How a step is written, alone or after others.
pub open spec fn step_text(step: Step, leading: bool) -> Seq<char> {
    match step {
        Step::Key(key) => if leading {
            key
        } else {
            seq!['.'] + key
        },
        Step::Index(index) => seq!['['] + signed_decimal(index) + seq![']'],
        Step::Wildcard => seq!['[', ']'],
    }
}

/// How a chain of steps is written, alone or after others.
pub open spec fn steps_text(steps: Seq<Step>, leading: bool) -> Seq<char>
    decreases steps.len(),
{
    if steps.len() == 0 {
        Seq::empty()
    } else {
        step_text(steps[0], leading) + steps_text(steps.skip(1), false)
    }
}

/// A step that can be written: a name is not empty and holds no punctuation of
/// paths, and an index fits 64 bits.
pub open spec fn writable(step: Step) -> bool {
    match step {
        Step::Key(key) => key.len() > 0 && !key.contains('.') && !key.contains('[')
            && !key.contains(']'),
        Step::Index(index) => i64::MIN <= index <= i64::MAX,
        Step::Wildcard => true,
    }
}

/// How many array accessors a chain starts with.
spec fn accessor_run(steps: Seq<Step>) -> nat
    decreases steps.len(),
{
    if steps.len() == 0 || steps[0] is Key {
        0
    } else {
        1 + accessor_run(steps.skip(1))
    }
}

proof fn lemma_bracket_end_at(b: Seq<u8>, i: nat, end: nat)
    requires
        i <= end < b.len(),
        b[end as int] == 0x5D,
        forall|k: int| i <= k < end ==> #[trigger] b[k] != 0x5D,
    ensures
        bracket_end(b, i) == end,
    decreases end - i,
{
    if i < end {
        lemma_bracket_end_at(b, i + 1, end);
    }
}

proof fn lemma_name_end_at(b: Seq<u8>, i: nat, end: nat)
    requires
        i <= end <= b.len(),
        end < b.len() ==> ends_name(b[end as int]),
        forall|k: int| i <= k < end ==> !ends_name(#[trigger] b[k]),
    ensures
        name_end(b, i) == end,
    decreases end - i,
{
    if i < end {
        lemma_name_end_at(b, i + 1, end);
    }
}

/// The bytes of an accessor, and what they are read as.
proof fn lemma_accessor_text(step: Step) -> (inner: Seq<u8>)
    requires
        writable(step),
        !(step is Key),
    ensures
        encode_utf8(step_text(step, false)) == seq![0x5Bu8] + inner + seq![0x5Du8],
        step_text(step, true) == step_text(step, false),
        forall|k: int| 0 <= k < inner.len() ==> #[trigger] inner[k] != 0x5D,
        accessor(inner) == Some(step),
{
    text::lemma_encode_ascii('[');
    text::lemma_encode_ascii(']');
    match step {
        Step::Index(index) => {
            let digits = signed_decimal(index);
            let inner = encode_utf8(digits);
            law_numbers_read_back(index);
            text::lemma_encode_concat(seq!['['], digits);
            text::lemma_encode_concat(seq!['['] + digits, seq![']']);
            assert forall|k: int| 0 <= k < inner.len() implies #[trigger] inner[k] != 0x5D by {
                if k > 0 {
                    assert(is_digit(inner[k]));
                } else {
                    assert(inner[0] == 0x2D || inner[0] == 0x2B || is_digit(inner[0]));
                }
            }
            inner
        },
        _ => {
            let inner: Seq<u8> = Seq::empty();
            text::lemma_encode_concat(seq!['['], seq![']']);
            assert(seq!['['] + seq![']'] =~= seq!['[', ']']);
            assert(encode_utf8(step_text(step, false)) =~= seq![0x5Bu8] + inner + seq![0x5Du8]);
            inner
        },
    }
}

/// What follows some steps starts with a dot, or ends the text.
proof fn lemma_accessors_read_back(b: Seq<u8>, i: nat, done: Seq<Step>, steps: Seq<Step>) -> (end:
    nat)
    requires
        i <= b.len(),
        b.skip(i as int) == encode_utf8(steps_text(steps, false)),
        forall|k: int| 0 <= k < steps.len() ==> writable(#[trigger] steps[k]),
    ensures
        accessor_run(steps) <= steps.len(),
        i <= end <= b.len(),
        accessor_run(steps) > 0 ==> i < end,
        accessors_at(b, i, done) == Ok::<(Seq<Step>, nat), (nat, Seq<char>)>(
            (done + steps.take(accessor_run(steps) as int), end),
        ),
        b.skip(end as int) == encode_utf8(
            steps_text(steps.skip(accessor_run(steps) as int), false),
        ),
        accessor_run(steps) < steps.len() ==> steps[accessor_run(steps) as int] is Key,
    decreases steps.len(),
{
    let run = accessor_run(steps);
    let rest = b.skip(i as int);
    if steps.len() == 0 {
        assert(encode_utf8(steps_text(steps, false)) =~= Seq::empty());
        assert(rest.len() == 0);
        assert(steps.skip(0) =~= steps);
        assert(done + steps.take(0) =~= done);
        i
    } else if steps[0] is Key {
        let key = steps[0]->Key_0;
        let after = steps_text(steps.skip(1), false);
        text::lemma_encode_ascii('.');
        assert(steps_text(steps, false) =~= seq!['.'] + (key + after));
        text::lemma_encode_concat(seq!['.'], key + after);
        assert(rest.len() > 0 && rest[0] == 0x2E);
        assert(b[i as int] == rest[0]);
        assert(steps.skip(0) =~= steps);
        assert(done + steps.take(0) =~= done);
        i
    } else {
        let after = steps_text(steps.skip(1), false);
        let inner = lemma_accessor_text(steps[0]);
        text::lemma_encode_concat(step_text(steps[0], false), after);
        let n = inner.len();
        let close = (i + 1 + n) as nat;
        assert(rest =~= seq![0x5Bu8] + inner + seq![0x5Du8] + encode_utf8(after));
        assert(b[i as int] == rest[0]);
        assert(b[close as int] == rest[(n + 1) as int]);
        assert forall|k: int| i + 1 <= k < close implies #[trigger] b[k] != 0x5D by {
            assert(b[k] == rest[k - i]);
            assert(rest[k - i] == inner[k - i - 1]);
        }
        lemma_bracket_end_at(b, i + 1, close);
        assert(b.subrange(i as int + 1, close as int) =~= inner) by {
            assert forall|k: int| 0 <= k < n implies b.subrange(i as int + 1, close as int)[k]
                == inner[k] by {
                assert(b[i + 1 + k] == rest[1 + k]);
            }
        }
        assert(b.skip(close as int + 1) =~= encode_utf8(after)) by {
            assert forall|k: int| 0 <= k < encode_utf8(after).len() implies b.skip(
                close as int + 1,
            )[k] == encode_utf8(after)[k] by {
                assert(b[close + 1 + k] == rest[n + 2 + k]);
            }
        }
        assert forall|k: int| 0 <= k < steps.skip(1).len() implies writable(
            #[trigger] steps.skip(1)[k],
        ) by {
            assert(steps.skip(1)[k] == steps[k + 1]);
        }
        let end = lemma_accessors_read_back(b, close + 1, done.push(steps[0]), steps.skip(1));
        let m = accessor_run(steps.skip(1));
        assert(done.push(steps[0]) + steps.skip(1).take(m as int) =~= done + steps.take(run as int));
        assert(steps.skip(1).skip(m as int) =~= steps.skip(run as int));
        end
    }
}

/// A name is not empty, and none of its bytes ends a name.
proof fn lemma_name_bytes(key: Seq<char>)
    requires
        writable(Step::Key(key)),
    ensures
        encode_utf8(key).len() > 0,
        forall|k: int|
            0 <= k < encode_utf8(key).len() ==> !ends_name(#[trigger] encode_utf8(key)[k]),
{
    let name = encode_utf8(key);
    if name.len() == 0 {
        assert(name =~= encode_utf8(Seq::<char>::empty()));
        text::lemma_same_bytes(key, Seq::empty());
    }
    assert forall|k: int| 0 <= k < name.len() implies !ends_name(#[trigger] name[k]) by {
        if ends_name(name[k]) {
            text::lemma_encode_has_ascii(key, k);
        }
    }
}

/// What follows a step starts with a byte that ends a name.
proof fn lemma_steps_start(steps: Seq<Step>)
    requires
        steps.len() > 0,
        writable(steps[0]),
    ensures
        encode_utf8(steps_text(steps, false)).len() > 0,
        ends_name(encode_utf8(steps_text(steps, false))[0]),
{
    let later = steps_text(steps.skip(1), false);
    match steps[0] {
        Step::Key(key) => {
            text::lemma_encode_ascii('.');
            assert(steps_text(steps, false) =~= seq!['.'] + (key + later));
            text::lemma_encode_concat(seq!['.'], key + later);
        },
        _ => {
            let inner = lemma_accessor_text(steps[0]);
            text::lemma_encode_concat(step_text(steps[0], false), later);
        },
    }
}

/// A name at the start of a part is read back, up to what follows it.
#[verifier::spinoff_prover]
proof fn lemma_name_reads_back(b: Seq<u8>, i: nat, key: Seq<char>, after: Seq<Step>) -> (end: nat)
    requires
        i <= b.len(),
        writable(Step::Key(key)),
        after.len() > 0 ==> writable(after[0]),
        b.skip(i as int) == encode_utf8(key + steps_text(after, false)),
    ensures
        i < end <= b.len(),
        name_end(b, i) == end,
        decode_utf8(b.subrange(i as int, end as int)) == key,
        b.skip(end as int) == encode_utf8(steps_text(after, false)),
{
    let rest = b.skip(i as int);
    let name = encode_utf8(key);
    let tail = encode_utf8(steps_text(after, false));
    let end = i + name.len();
    text::lemma_encode_concat(key, steps_text(after, false));
    lemma_name_bytes(key);
    assert(b.subrange(i as int, end as int) =~= rest.take(name.len() as int));
    assert((name + tail).take(name.len() as int) =~= name);
    assert(b.skip(end as int) =~= rest.skip(name.len() as int));
    assert((name + tail).skip(name.len() as int) =~= tail);
    vstd::utf8::encode_utf8_decode_utf8(key);
    assert forall|k: int| i <= k < end implies !ends_name(#[trigger] b[k]) by {
        assert(b[k] == b.subrange(i as int, end as int)[k - i]);
    }
    if end < b.len() {
        assert(tail.len() > 0);
        assert(after.len() > 0);
        lemma_steps_start(after);
        assert(b[end as int] == b.skip(end as int)[0]);
    }
    lemma_name_end_at(b, i, end);
    end
}

/// Where a part ends and another follows, there is a dot and then the next part.
#[verifier::spinoff_prover]
proof fn lemma_dot_reads_back(b: Seq<u8>, next: nat, left: Seq<Step>)
    requires
        next <= b.len(),
        left.len() > 0,
        left[0] is Key,
        writable(left[0]),
        b.skip(next as int) == encode_utf8(steps_text(left, false)),
    ensures
        next + 1 < b.len(),
        b[next as int] == 0x2E,
        b.skip(next as int + 1) == encode_utf8(steps_text(left, true)),
{
    let key = left[0]->Key_0;
    let part = steps_text(left, true);
    text::lemma_encode_ascii('.');
    assert(steps_text(left, false) =~= seq!['.'] + part);
    text::lemma_encode_concat(seq!['.'], part);
    let rest = b.skip(next as int);
    assert(rest == seq![0x2Eu8] + encode_utf8(part));
    assert(b[next as int] == rest[0]);
    assert(b.skip(next as int + 1) =~= rest.skip(1));
    assert(rest.skip(1) =~= encode_utf8(part));
    text::lemma_encode_concat(key, steps_text(left.skip(1), false));
    lemma_name_bytes(key);
}

#[verifier::spinoff_prover]
proof fn lemma_parts_read_back(
    b: Seq<u8>,
    i: nat,
    first: bool,
    done: Seq<Step>,
    steps: Seq<Step>,
)
    requires
        i <= b.len(),
        steps.len() > 0,
        first || steps[0] is Key,
        b.skip(i as int) == encode_utf8(steps_text(steps, true)),
        forall|k: int| 0 <= k < steps.len() ==> writable(#[trigger] steps[k]),
    ensures
        parts_at(b, i, first, done) == PathReading::Path(done + steps),
    decreases steps.len(),
{
    assert(writable(steps[0]));
    let end: nat;
    let named: Seq<Step>;
    let tail: Seq<Step>;
    if steps[0] is Key {
        tail = steps.skip(1);
        named = done.push(steps[0]);
        if tail.len() > 0 {
            assert(writable(steps[1]));
        }
        end = lemma_name_reads_back(b, i, steps[0]->Key_0, tail);
    } else {
        end = i;
        tail = steps;
        named = done;
        let inner = lemma_accessor_text(steps[0]);
        assert(steps_text(steps, true) == steps_text(steps, false));
        lemma_steps_start(steps);
        assert(b[i as int] == b.skip(i as int)[0]);
    }
    assert forall|k: int| 0 <= k < tail.len() implies writable(#[trigger] tail[k]) by {
        assert(tail[k] == steps[k + (steps.len() - tail.len())]);
    }
    let next = lemma_accessors_read_back(b, end, named, tail);
    let m = accessor_run(tail);
    let left = tail.skip(m as int);
    let so_far = named + tail.take(m as int);
    assert(so_far + left =~= done + steps);
    if left.len() == 0 {
        assert(encode_utf8(steps_text(left, false)) =~= Seq::empty());
        assert(b.skip(next as int).len() == 0);
        assert(so_far =~= done + steps);
    } else {
        assert forall|k: int| 0 <= k < left.len() implies writable(#[trigger] left[k]) by {
            assert(left[k] == tail[k + m]);
        }
        assert(left[0] == tail[m as int]);
        lemma_dot_reads_back(b, next, left);
        lemma_parts_read_back(b, next + 1, false, so_far, left);
    }
}

/// Every chain of steps that can be written is read back from its text.
pub proof fn law_written_paths_parse_back(steps: Seq<Step>)
    requires
        steps.len() > 0,
        forall|k: int| 0 <= k < steps.len() ==> writable(#[trigger] steps[k]),
    ensures
        path_of(steps_text(steps, true)) == PathReading::Path(steps),
{
    let b = encode_utf8(steps_text(steps, true));
    assert(b.skip(0) =~= b);
    lemma_parts_read_back(b, 0, true, Seq::empty(), steps);
    assert(Seq::empty() + steps =~= steps);
}

/// An accessor that is read can be written.
proof fn lemma_accessors_writable(b: Seq<u8>, i: nat, done: Seq<Step>)
    requires
        forall|k: int| 0 <= k < done.len() ==> writable(#[trigger] done[k]),
    ensures
        accessors_at(b, i, done) matches Ok((steps, end)) ==> {
            &&& done.len() <= steps.len()
            &&& end > i ==> done.len() < steps.len()
            &&& i <= b.len() ==> end <= b.len()
            &&& i <= b.len() && text::is_cut(b, i as int) && valid_utf8(b) ==> text::is_cut(
                b,
                end as int,
            )
            &&& forall|k: int| 0 <= k < steps.len() ==> writable(#[trigger] steps[k])
        },
    decreases b.len() - i,
{
    if i < b.len() && b[i as int] == 0x5B {
        let close = bracket_end(b, i + 1);
        lemma_bracket_end(b, i + 1);
        if close < b.len() {
            match accessor(b.subrange(i as int + 1, close as int)) {
                Some(step) => {
                    assert forall|k: int| 0 <= k < done.push(step).len() implies writable(
                        #[trigger] done.push(step)[k],
                    ) by {
                        if k < done.len() {
                            assert(done.push(step)[k] == done[k]);
                        }
                    }
                    lemma_accessors_writable(b, close + 1, done.push(step));
                    if valid_utf8(b) {
                        text::lemma_next_cut(b, close as int);
                    }
                },
                None => {},
            }
        }
    }
}

/// A name that is read can be written.
proof fn lemma_name_writable(b: Seq<u8>, i: nat)
    requires
        valid_utf8(b),
        i < name_end(b, i),
        text::is_cut(b, i as int),
    ensures
        writable(Step::Key(decode_utf8(b.subrange(i as int, name_end(b, i) as int)))),
        name_end(b, i) <= b.len(),
        text::is_cut(b, name_end(b, i) as int),
{
    let end = name_end(b, i);
    lemma_name_end(b, i);
    lemma_name_has_no_end(b, i);
    let name = b.subrange(i as int, end as int);
    let key = decode_utf8(name);
    text::lemma_part_is_text(b, i as int, end as int);
    vstd::utf8::decode_utf8_encode_utf8(name);
    if key.len() == 0 {
        assert(encode_utf8(key) =~= Seq::empty());
    }
    assert forall|c: char| (c == '.' || c == '[' || c == ']') implies !(#[trigger] key.contains(
        c,
    )) by {
        if key.contains(c) {
            text::lemma_ascii_is_encoded(key, c);
            let k = choose|k: int| 0 <= k < name.len() && name[k] == c as u8;
            assert(name[k] == b[i + k]);
        }
    }
}

proof fn lemma_name_has_no_end(b: Seq<u8>, i: nat)
    ensures
        forall|k: int| i <= k < name_end(b, i) ==> !ends_name(#[trigger] b[k]),
    decreases b.len() - i,
{
    if i < b.len() && !ends_name(b[i as int]) {
        lemma_name_has_no_end(b, i + 1);
    }
}

proof fn lemma_parts_writable(b: Seq<u8>, i: nat, first: bool, done: Seq<Step>)
    requires
        valid_utf8(b),
        i <= b.len(),
        text::is_cut(b, i as int),
        forall|k: int| 0 <= k < done.len() ==> writable(#[trigger] done[k]),
    ensures
        parts_at(b, i, first, done) matches PathReading::Path(steps) ==> steps.len() > 0 && forall|
            k: int,
        |
            0 <= k < steps.len() ==> writable(#[trigger] steps[k]),
    decreases b.len() - i,
{
    let end = name_end(b, i);
    lemma_name_end(b, i);
    if end > i {
        lemma_name_writable(b, i);
    }
    let named = if end == i {
        done
    } else {
        done.push(Step::Key(decode_utf8(b.subrange(i as int, end as int))))
    };
    assert forall|k: int| 0 <= k < named.len() implies writable(#[trigger] named[k]) by {
        if k < done.len() {
            assert(named[k] == done[k]);
        }
    }
    lemma_accessors_writable(b, end, named);
    lemma_accessors_end(b, end, named);
    match accessors_at(b, end, named) {
        Err(_) => {},
        Ok((steps, next)) => {
            if next < b.len() && b[next as int] == 0x2E {
                text::lemma_next_cut(b, next as int);
                lemma_parts_writable(b, next + 1, false, steps);
            }
        },
    }
}

/// Whatever is read as a path has at least one step, and its steps can be
/// written: names are not empty and hold no dot or bracket, and indices fit 64
/// bits.
pub proof fn law_parsed_paths_are_writable(text: Seq<char>)
    ensures
        path_of(text) matches PathReading::Path(steps) ==> steps.len() >= 1 && forall|k: int|
            0 <= k < steps.len() ==> writable(#[trigger] steps[k]),
{
    let b = encode_utf8(text);
    vstd::utf8::encode_utf8_valid_utf8(text);
    if b.len() > 0 {
        assert(!vstd::utf8::is_continuation_byte(b[0]));
    }
    lemma_parts_writable(b, 0, true, Seq::empty());
}

/// No step at all reaches the record itself.
pub proof fn law_no_steps_reach_the_record(root: Json)
    ensures
        reached(root, Seq::empty()) == seq![root],
{
}

proof fn lemma_one_step(root: Json, step: Step)
    ensures
        reached(root, seq![step]) == step_into(root, step),
{
    assert(seq![step].drop_last() =~= Seq::empty());
    assert(reached(root, seq![step].drop_last()) =~= seq![root]);
    assert(seq![root].drop_last() =~= Seq::empty());
    assert(step_into_all(seq![root].drop_last(), step) =~= Seq::empty());
    assert(reached(root, seq![step]) =~= step_into(root, step));
}

/// A name reaches the value of the first member with that name, whatever its
/// type, and nothing else.
pub proof fn law_names_reach_the_first_member(
    members: Seq<(Seq<char>, Json)>,
    key: Seq<char>,
    k: int,
)
    requires
        0 <= k < members.len(),
        members[k].0 == key,
        forall|j: int| 0 <= j < k ==> (#[trigger] members[j]).0 != key,
    ensures
        reached(Json::Object(members), seq![Step::Key(key)]) == seq![members[k].1],
{
    lemma_one_step(Json::Object(members), Step::Key(key));
    law_first_member_is_found(members, key);
    match member(members, key) {
        Some(found) => {
            let p = choose|p: int|
                0 <= p < members.len() && #[trigger] members[p] == (key, found) && forall|j: int|
                    0 <= j < p ==> (#[trigger] members[j]).0 != key;
            assert(p == k) by {
                if p < k {
                    assert(members[p].0 != key);
                } else if k < p {
                    assert(members[k].0 != key);
                }
            }
        },
        None => {
            assert(members[k].0 != key);
        },
    }
}

/// A name reaches nothing where no member has it, or where there are no members.
pub proof fn law_names_reach_nothing_else(root: Json, key: Seq<char>)
    requires
        root matches Json::Object(members) ==> forall|j: int|
            0 <= j < members.len() ==> (#[trigger] members[j]).0 != key,
    ensures
        reached(root, seq![Step::Key(key)]) == Seq::<Json>::empty(),
{
    lemma_one_step(root, Step::Key(key));
    match root {
        Json::Object(members) => {
            law_first_member_is_found(members, key);
        },
        _ => {},
    }
}

/// An index reaches the element at its place, counted from the front, and the
/// same element counted from the end; past either end it reaches nothing.
pub proof fn law_indices_reach_their_element(items: Seq<Json>, place: int, beyond: int)
    requires
        0 <= place < items.len(),
        beyond >= items.len() || beyond < -(items.len() as int),
    ensures
        reached(Json::Array(items), seq![Step::Index(place)]) == seq![items[place]],
        reached(Json::Array(items), seq![Step::Index(place - items.len())]) == seq![items[place]],
        reached(Json::Array(items), seq![Step::Index(beyond)]) == Seq::<Json>::empty(),
{
    lemma_one_step(Json::Array(items), Step::Index(place));
    lemma_one_step(Json::Array(items), Step::Index(place - items.len()));
    lemma_one_step(Json::Array(items), Step::Index(beyond));
}

/// The wildcard reaches every element of an array, in order.
pub proof fn law_the_wildcard_reaches_every_element(items: Seq<Json>)
    ensures
        reached(Json::Array(items), seq![Step::Wildcard]) == items,
{
    lemma_one_step(Json::Array(items), Step::Wildcard);
}

/// An index and the wildcard reach nothing in what is not an array, and an index
/// reaches nothing in an empty one.
pub proof fn law_accessors_reach_nothing_else(root: Json, index: int)
    ensures
        !(root is Array) ==> reached(root, seq![Step::Index(index)]) == Seq::<Json>::empty(),
        !(root is Array) ==> reached(root, seq![Step::Wildcard]) == Seq::<Json>::empty(),
        reached(Json::Array(Seq::empty()), seq![Step::Index(index)]) == Seq::<Json>::empty(),
{
    lemma_one_step(root, Step::Index(index));
    lemma_one_step(root, Step::Wildcard);
    lemma_one_step(Json::Array(Seq::empty()), Step::Index(index));
}

proof fn lemma_step_all_concat(a: Seq<Json>, b: Seq<Json>, step: Step)
    ensures
        step_into_all(a + b, step) == step_into_all(a, step) + step_into_all(b, step),
    decreases b.len(),
{
    if b.len() == 0 {
        assert(a + b =~= a);
        assert(step_into_all(a, step) + step_into_all(b, step) =~= step_into_all(a, step));
    } else {
        lemma_step_all_concat(a, b.drop_last(), step);
        assert((a + b).drop_last() =~= a + b.drop_last());
        assert(step_into_all(a + b, step) =~= step_into_all(a, step) + step_into_all(b, step));
    }
}

/// A longer path goes on from each value that its first steps reach, in order,
/// and what it reaches from there stands in a row.
pub proof fn law_paths_go_on_from_every_value(root: Json, first: Seq<Step>, then: Seq<Step>)
    ensures
        reached(root, first + then) == reached(root, first).map_values(
            |value: Json| reached(value, then),
        ).flatten_alt(),
    decreases then.len(),
{
    let from = reached(root, first);
    if then.len() == 0 {
        assert(first + then =~= first);
        lemma_all_stay(from, then);
    } else {
        let head = then.drop_last();
        law_paths_go_on_from_every_value(root, first, head);
        assert((first + then).drop_last() =~= first + head);
        assert((first + then).last() == then.last());
        lemma_all_go_on(from, then);
    }
}

proof fn lemma_all_stay(from: Seq<Json>, none: Seq<Step>)
    requires
        none.len() == 0,
    ensures
        from.map_values(|value: Json| reached(value, none)).flatten_alt() == from,
    decreases from.len(),
{
    let f = |value: Json| reached(value, none);
    if from.len() > 0 {
        lemma_all_stay(from.drop_last(), none);
        assert(from.map_values(f).drop_last() =~= from.drop_last().map_values(f));
        assert(from.map_values(f).flatten_alt() =~= from);
    } else {
        assert(from.map_values(f).flatten_alt() =~= from);
    }
}

proof fn lemma_all_go_on(from: Seq<Json>, then: Seq<Step>)
    requires
        then.len() > 0,
    ensures
        step_into_all(
            from.map_values(|value: Json| reached(value, then.drop_last())).flatten_alt(),
            then.last(),
        ) == from.map_values(|value: Json| reached(value, then)).flatten_alt(),
    decreases from.len(),
{
    let f = |value: Json| reached(value, then.drop_last());
    let g = |value: Json| reached(value, then);
    if from.len() > 0 {
        let head = from.drop_last();
        lemma_all_go_on(head, then);
        assert(from.map_values(f).drop_last() =~= head.map_values(f));
        assert(from.map_values(g).drop_last() =~= head.map_values(g));
        lemma_step_all_concat(head.map_values(f).flatten_alt(), f(from.last()), then.last());
        assert(from.map_values(g).last() == step_into_all(f(from.last()), then.last()));
    } else {
        assert(from.map_values(f).flatten_alt() =~= Seq::empty());
        assert(from.map_values(g).flatten_alt() =~= Seq::empty());
    }
}

} // verus!
