//! What a line of input holds: nothing, a record, or something broken.

use crate::json::grammar::{describe, law_no_more_values_than_bytes, text_value, Reading};
use crate::json::parse::parse;
use crate::json::value::{items_size, Json, Value};
use crate::lines::{
    is_blank_line, law_blank_lines_hold_whitespace_alone, law_lines_are_numbered_in_order, lines_of,
    total_raw, Line, LineModel,
};
use crate::text::{law_valid_prefix_is_longest, valid_prefix};
use vstd::prelude::*;
use vstd::utf8::valid_utf8;

verus! {

/// What a line holds, as mathematics. What is broken comes with its 1-based
/// column and the reason.
pub enum Finding {
    Blank,
    Record(Json),
    Broken(nat, Seq<char>),
}

/// What the bytes of a line hold.
pub open spec fn finding(bytes: Seq<u8>) -> Finding {
    if is_blank_line(bytes) {
        Finding::Blank
    } else if !valid_utf8(bytes) {
        Finding::Broken(valid_prefix(bytes) + 1, "invalid UTF-8"@)
    } else {
        match text_value(bytes) {
            Reading::Got(json, _) => Finding::Record(json),
            Reading::Bad(kind, offset) => Finding::Broken(offset + 1, describe(kind)),
        }
    }
}

/// The records that some lines hold, in order.
pub open spec fn records(lines: Seq<LineModel>) -> Seq<Json>
    decreases lines.len(),
{
    if lines.len() == 0 {
        Seq::empty()
    } else {
        match finding(lines.last().bytes) {
            Finding::Record(json) => records(lines.drop_last()).push(json),
            _ => records(lines.drop_last()),
        }
    }
}

/// How many of some lines are blank.
pub open spec fn blanks(lines: Seq<LineModel>) -> nat
    decreases lines.len(),
{
    if lines.len() == 0 {
        0
    } else {
        match finding(lines.last().bytes) {
            Finding::Blank => blanks(lines.drop_last()) + 1,
            _ => blanks(lines.drop_last()),
        }
    }
}

/// Where a line is broken, and why.
pub struct Problem {
    pub line: nat,
    pub column: nat,
    pub reason: Seq<char>,
}

/// The problems of some lines, in order.
pub open spec fn problems(lines: Seq<LineModel>) -> Seq<Problem>
    decreases lines.len(),
{
    if lines.len() == 0 {
        Seq::empty()
    } else {
        match finding(lines.last().bytes) {
            Finding::Broken(column, reason) => problems(lines.drop_last()).push(
                Problem { line: lines.last().number, column, reason },
            ),
            _ => problems(lines.drop_last()),
        }
    }
}

/// The byte lengths of those lines that are not blank.
pub open spec fn lengths(lines: Seq<LineModel>) -> Seq<u64>
    decreases lines.len(),
{
    if lines.len() == 0 {
        Seq::empty()
    } else {
        match finding(lines.last().bytes) {
            Finding::Blank => lengths(lines.drop_last()),
            _ => lengths(lines.drop_last()).push(lines.last().bytes.len() as u64),
        }
    }
}

/// A line takes at least one byte of input, and at least its content.
pub open spec fn sound(line: LineModel) -> bool {
    line.raw_len >= 1 && line.bytes.len() <= line.raw_len
}

/// Each of some lines is sound.
pub open spec fn all_sound(lines: Seq<LineModel>) -> bool {
    forall|i: int| 0 <= i < lines.len() ==> sound(#[trigger] lines[i])
}

/// Each line is blank, a record or broken, and nothing else.
pub proof fn law_every_line_counts_once(lines: Seq<LineModel>)
    ensures
        blanks(lines) + records(lines).len() + problems(lines).len() == lines.len(),
        lengths(lines).len() == records(lines).len() + problems(lines).len(),
    decreases lines.len(),
{
    if lines.len() > 0 {
        law_every_line_counts_once(lines.drop_last());
    }
}

/// The input is at least as long as it has lines, and as its records have
/// values.
pub proof fn law_input_bounds_its_contents(lines: Seq<LineModel>)
    requires
        all_sound(lines),
    ensures
        lines.len() <= total_raw(lines),
        items_size(records(lines)) <= total_raw(lines),
    decreases lines.len(),
{
    if lines.len() > 0 {
        let head = lines.drop_last();
        let last = lines.last();
        assert(all_sound(head)) by {
            assert forall|i: int| 0 <= i < head.len() implies sound(#[trigger] head[i]) by {
                assert(head[i] == lines[i]);
            }
        }
        law_input_bounds_its_contents(head);
        assert(sound(lines[lines.len() - 1]));
        law_no_more_values_than_bytes(last.bytes);
        match finding(last.bytes) {
            Finding::Record(json) => {
                assert(records(lines).drop_last() =~= records(head));
            },
            _ => {},
        }
    }
}

/// The problems keep the order of the lines.
proof fn lemma_problems_in_order(lines: Seq<LineModel>)
    requires
        forall|i: int, j: int|
            0 <= i < j < lines.len() ==> (#[trigger] lines[i]).number < (
            #[trigger] lines[j]).number,
    ensures
        forall|i: int, j: int|
            0 <= i < j < problems(lines).len() ==> (#[trigger] problems(lines)[i]).line < (
            #[trigger] problems(lines)[j]).line,
        forall|i: int|
            0 <= i < problems(lines).len() ==> lines.len() > 0 && (
            #[trigger] problems(lines)[i]).line <= lines.last().number,
    decreases lines.len(),
{
    if lines.len() > 0 {
        let head = lines.drop_last();
        assert forall|i: int, j: int| 0 <= i < j < head.len() implies (#[trigger] head[i]).number
            < (#[trigger] head[j]).number by {
            assert(lines[i].number < lines[j].number);
        }
        lemma_problems_in_order(head);
        let earlier = problems(head);
        let now = problems(lines);
        if head.len() > 0 {
            assert(lines[head.len() - 1].number < lines[lines.len() - 1].number);
        }
        assert forall|i: int| 0 <= i < now.len() implies (#[trigger] now[i]).line
            <= lines.last().number by {
            if i < earlier.len() {
                assert(now[i] == earlier[i]);
            }
        }
        assert forall|i: int, j: int| 0 <= i < j < now.len() implies (#[trigger] now[i]).line < (
        #[trigger] now[j]).line by {
            assert(now[i] == earlier[i]);
            if j < earlier.len() {
                assert(now[j] == earlier[j]);
            }
        }
    }
}

/// The problems of an input come in the order of its lines, one for a line at
/// most.
pub proof fn law_problems_are_in_line_order(input: Seq<u8>)
    ensures
        forall|i: int, j: int|
            0 <= i < j < problems(lines_of(input)).len() ==> (
            #[trigger] problems(lines_of(input))[i]).line < (
            #[trigger] problems(lines_of(input))[j]).line,
{
    let lines = lines_of(input);
    assert forall|i: int, j: int| 0 <= i < j < lines.len() implies (#[trigger] lines[i]).number < (
    #[trigger] lines[j]).number by {
        law_lines_are_numbered_in_order(input, 0, i);
        law_lines_are_numbered_in_order(input, 0, j);
    }
    lemma_problems_in_order(lines);
}

/// What a line holds.
pub enum Found {
    /// Nothing but whitespace.
    Blank,
    /// A record.
    Record(Value),
    /// Something that is no record: its 1-based column and the reason.
    Broken(usize, &'static str),
}

/// Looks at a line.
pub fn examine(line: &Line) -> (found: Found)
    requires
        line.bytes@.len() < usize::MAX,
    ensures
        match (found, finding(line.bytes@)) {
            (Found::Blank, Finding::Blank) => true,
            (Found::Record(value), Finding::Record(json)) => value.json() == json,
            (Found::Broken(column, reason), Finding::Broken(c, r)) => column == c && reason@ == r,
            _ => false,
        },
{
    if line.is_blank() {
        return Found::Blank;
    }
    match line.as_str() {
        Err(error) => Found::Broken(error.valid_up_to + 1, "invalid UTF-8"),
        Ok(text) => {
            proof {
                vstd::utf8::decode_utf8_encode_utf8(line.bytes@);
            }
            match parse(text) {
                Ok(value) => Found::Record(value),
                Err(error) => Found::Broken(error.offset + 1, error.kind.message()),
            }
        },
    }
}

/// What is counted of some lines is what each of them holds, one by one and in
/// order: the records are those of the lines that hold one, the problems those of
/// the broken lines with their numbers, and the lengths those of the lines that
/// are not blank.
pub proof fn law_lines_are_taken_one_by_one(lines: Seq<LineModel>)
    ensures
        records(lines) == lines.filter_map(
            |line: LineModel|
                match finding(line.bytes) {
                    Finding::Record(json) => Some(json),
                    _ => None,
                },
        ),
        problems(lines) == lines.filter_map(
            |line: LineModel|
                match finding(line.bytes) {
                    Finding::Broken(column, reason) => Some(
                        Problem { line: line.number, column, reason },
                    ),
                    _ => None,
                },
        ),
        lengths(lines) == lines.filter_map(
            |line: LineModel|
                match finding(line.bytes) {
                    Finding::Blank => None,
                    _ => Some(line.bytes.len() as u64),
                },
        ),
        blanks(lines) == lines.filter(|line: LineModel| finding(line.bytes) is Blank).len(),
    decreases lines.len(),
{
    reveal(Seq::filter);
    if lines.len() > 0 {
        law_lines_are_taken_one_by_one(lines.drop_last());
    }
}

/// A line is blank exactly if it holds nothing but whitespace. Any other that is
/// not UTF-8 is broken, at the byte that ends the longest prefix that is. Any
/// other holds the value that its text is read as, or is broken within the line
/// or right after it.
pub proof fn law_what_a_line_holds(bytes: Seq<u8>)
    ensures
        finding(bytes) is Blank <==> forall|i: int|
            0 <= i < bytes.len() ==> (#[trigger] bytes[i] == 0x20 || bytes[i] == 0x09 || bytes[i]
                == 0x0A || bytes[i] == 0x0C || bytes[i] == 0x0D),
        !(finding(bytes) is Blank) && !valid_utf8(bytes) ==> {
            &&& finding(bytes) matches Finding::Broken(column, reason)
            &&& reason == "invalid UTF-8"@
            &&& 1 <= column <= bytes.len()
            &&& valid_utf8(bytes.take(column - 1))
            &&& forall|n: int| column <= n <= bytes.len() ==> !valid_utf8(#[trigger] bytes.take(n))
        },
        !(finding(bytes) is Blank) && valid_utf8(bytes) ==> match text_value(bytes) {
            Reading::Got(json, _) => finding(bytes) == Finding::Record(json),
            Reading::Bad(kind, offset) => finding(bytes) == Finding::Broken(
                offset + 1,
                describe(kind),
            ),
        },
{
    law_blank_lines_hold_whitespace_alone(bytes);
    law_valid_prefix_is_longest(bytes);
    if !valid_utf8(bytes) {
        assert(bytes.take(bytes.len() as int) =~= bytes);
    }
}

} // verus!
