//! Splitting JSONL input into lines.
//!
//! Beyond cutting at newlines, a reader of real-world JSONL has to deal with a
//! UTF-8 byte order mark on the first line, with CRLF endings, and with a last
//! record that has no newline at all. [`LineFramer`] does so for one raw line
//! at a time, whatever it was read from; [`LineReader`] walks an input that is
//! in memory.

use crate::text;
use vstd::prelude::*;
use vstd::utf8::{decode_utf8, valid_utf8};

verus! {

/// One line as a value: its 1-based number, its content, and how many bytes of
/// input it took.
pub struct LineModel {
    pub number: nat,
    pub bytes: Seq<u8>,
    pub raw_len: nat,
}

/// ASCII whitespace: space, tab, line feed, form feed and carriage return.
pub open spec fn is_whitespace(byte: u8) -> bool {
    byte == 0x20 || byte == 0x09 || byte == 0x0A || byte == 0x0C || byte == 0x0D
}

/// Empty, or nothing but ASCII whitespace.
pub open spec fn is_blank_line(bytes: Seq<u8>) -> bool {
    forall|i: int| 0 <= i < bytes.len() ==> is_whitespace(#[trigger] bytes[i])
}

/// The input starts with a UTF-8 byte order mark.
pub open spec fn has_bom(raw: Seq<u8>) -> bool {
    raw.len() >= 3 && raw[0] == 0xEF && raw[1] == 0xBB && raw[2] == 0xBF
}

/// A line without its `\n` or `\r\n`.
pub open spec fn without_newline(raw: Seq<u8>) -> Seq<u8> {
    if raw.len() > 0 && raw.last() == 0x0A {
        if raw.len() > 1 && raw[raw.len() - 2] == 0x0D {
            raw.take(raw.len() - 2)
        } else {
            raw.drop_last()
        }
    } else {
        raw
    }
}

/// A raw line without its line ending and, if it is the first line of the
/// input, without a byte order mark.
pub open spec fn content(raw: Seq<u8>, first: bool) -> Seq<u8> {
    without_newline(
        if first && has_bom(raw) {
            raw.skip(3)
        } else {
            raw
        },
    )
}

/// The line that a raw line is, after `number` earlier ones.
pub open spec fn framed(raw: Seq<u8>, number: nat) -> LineModel {
    LineModel { number: number + 1, bytes: content(raw, number == 0), raw_len: raw.len() }
}

/// How long the first raw line is: up to and including the first `\n`, or all
/// of the input if there is none.
pub open spec fn raw_line_len(input: Seq<u8>) -> nat
    decreases input.len(),
{
    if input.len() == 0 {
        0
    } else if input[0] == 0x0A {
        1
    } else {
        1 + raw_line_len(input.skip(1))
    }
}

/// The lines of an input that follows `number` earlier lines.
pub open spec fn lines_after(input: Seq<u8>, number: nat) -> Seq<LineModel>
    decreases input.len(),
{
    let n = raw_line_len(input) as int;
    if input.len() == 0 || !(0 < n <= input.len()) {
        Seq::empty()
    } else {
        seq![framed(input.take(n), number)] + lines_after(input.skip(n), number + 1)
    }
}

/// The lines of an input.
pub open spec fn lines_of(input: Seq<u8>) -> Seq<LineModel> {
    lines_after(input, 0)
}

/// A raw line is not empty, stays within the input, has `\n` nowhere but at its
/// end, and lacks it there only when the input ends.
pub proof fn lemma_raw_line(input: Seq<u8>)
    ensures
        raw_line_len(input) <= input.len(),
        input.len() > 0 ==> raw_line_len(input) > 0,
        forall|i: int| 0 <= i < raw_line_len(input) - 1 ==> #[trigger] input[i] != 0x0A,
        0 < raw_line_len(input) < input.len() ==> input[raw_line_len(input) - 1] == 0x0A,
    decreases input.len(),
{
    if input.len() > 0 && input[0] != 0x0A {
        let rest = input.skip(1);
        lemma_raw_line(rest);
        assert forall|i: int| 0 <= i < raw_line_len(input) - 1 implies #[trigger] input[i] != 0x0A by {
            if i > 0 {
                assert(rest[i - 1] == input[i]);
            }
        }
        if raw_line_len(input) < input.len() {
            assert(rest[raw_line_len(rest) - 1] == input[raw_line_len(input) - 1]);
        }
    }
}

proof fn lemma_raw_line_found(input: Seq<u8>, n: int)
    requires
        0 < n <= input.len(),
        forall|i: int| 0 <= i < n - 1 ==> #[trigger] input[i] != 0x0A,
        input[n - 1] == 0x0A || n == input.len(),
    ensures
        raw_line_len(input) == n,
    decreases input.len(),
{
    if input[0] != 0x0A && n > 1 {
        let rest = input.skip(1);
        assert forall|i: int| 0 <= i < n - 2 implies #[trigger] rest[i] != 0x0A by {
            assert(input[i + 1] != 0x0A);
        }
        lemma_raw_line_found(rest, n - 1);
    } else if input[0] != 0x0A {
        assert(input.skip(1).len() == 0);
        assert(raw_line_len(input.skip(1)) == 0);
    } else if n > 1 {
        assert(input[0] != 0x0A);
    }
}

/// One line of input, with its 1-based line number.
pub struct Line<'a> {
    /// 1-based line number, counting blank lines and unparseable lines.
    pub number: u64,
    /// The line's content, with any trailing newline (and byte order mark, on
    /// line 1) already stripped.
    pub bytes: &'a [u8],
    /// Bytes of input that this line took, line ending and all.
    pub raw_len: usize,
}

/// A line that could not be decoded, with the index up to which it is
/// well-formed.
#[derive(Debug, Clone, Copy, PartialEq, Eq, Structural)]
pub struct Utf8Error {
    pub valid_up_to: usize,
}

impl<'a> View for Line<'a> {
    type V = LineModel;

    open spec fn view(&self) -> LineModel {
        LineModel { number: self.number as nat, bytes: self.bytes@, raw_len: self.raw_len as nat }
    }
}

impl<'a> Line<'a> {
    /// A line takes at least one byte of input, and at least its content.
    pub open spec fn wf(&self) -> bool {
        self.raw_len >= 1 && self.bytes@.len() <= self.raw_len
    }

    /// True if the line is empty or contains only ASCII whitespace.
    pub fn is_blank(&self) -> (blank: bool)
        ensures
            blank == is_blank_line(self.bytes@),
    {
        let bytes = self.bytes;
        let mut i: usize = 0;
        while i < bytes.len()
            invariant
                bytes@ == self.bytes@,
                i <= bytes@.len(),
                forall|k: int| 0 <= k < i ==> is_whitespace(#[trigger] bytes@[k]),
            decreases bytes@.len() - i,
        {
            let byte: u8 = bytes[i];
            if !(byte == 0x20 || byte == 0x09 || byte == 0x0A || byte == 0x0C || byte == 0x0D) {
                assert(!is_whitespace(self.bytes@[i as int]));
                return false;
            }
            i = i + 1;
        }
        true
    }

    /// Decodes the line as UTF-8.
    pub fn as_str(&self) -> (decoded: Result<&'a str, Utf8Error>)
        ensures
            match decoded {
                Ok(s) => valid_utf8(self.bytes@) && s@ == decode_utf8(self.bytes@),
                Err(e) => !valid_utf8(self.bytes@) && e.valid_up_to == text::valid_prefix(
                    self.bytes@,
                ) && e.valid_up_to < self.bytes@.len(),
            },
    {
        match text::decode(self.bytes) {
            Some(s) => Ok(s),
            None => {
                let n: usize = text::valid_up_to(self.bytes);
                proof {
                    text::law_valid_prefix_is_longest(self.bytes@);
                    if n == self.bytes@.len() {
                        assert(self.bytes@.take(n as int) =~= self.bytes@);
                    }
                }
                Err(Utf8Error { valid_up_to: n })
            },
        }
    }
}

/// What is remembered between lines: how many there have been.
pub struct LineFramer {
    number: u64,
}

impl LineFramer {
    /// How many lines have been framed.
    pub closed spec fn lines(&self) -> nat {
        self.number as nat
    }

    /// A framer at the start of an input.
    pub fn new() -> (framer: Self)
        ensures
            framer.lines() == 0,
    {
        LineFramer { number: 0 }
    }

    /// Takes one raw line, up to and including its `\n` if it has one, and
    /// strips the line ending and, on the first line, a byte order mark.
    pub fn frame<'b>(&mut self, raw: &'b [u8]) -> (line: Line<'b>)
        requires
            raw@.len() > 0,
            old(self).lines() < u64::MAX,
        ensures
            line@ == framed(raw@, old(self).lines()),
            line.wf(),
            final(self).lines() == old(self).lines() + 1,
    {
        let mut start: usize = 0;
        if self.number == 0 && raw.len() >= 3 && raw[0] == 0xEF && raw[1] == 0xBB && raw[2]
            == 0xBF {
            start = 3;
        }
        self.number = self.number + 1;
        let mut end: usize = raw.len();
        let ghost body = raw@.skip(start as int);
        assert(body =~= raw@.subrange(start as int, raw@.len() as int));
        assert(start == 0 ==> body =~= raw@);
        if raw[end - 1] == 0x0A {
            end = end - 1;
            if end > start && raw[end - 1] == 0x0D {
                end = end - 1;
            }
        }
        assert(without_newline(body) =~= raw@.subrange(start as int, end as int));
        let bytes = &raw[start..end];
        Line { number: self.number, bytes, raw_len: raw.len() }
    }
}

/// Splits an input in memory into lines.
pub struct LineReader<'a> {
    input: &'a [u8],
    pos: usize,
    framer: LineFramer,
}

impl<'a> LineReader<'a> {
    /// What has not been read yet.
    pub closed spec fn rest(&self) -> Seq<u8> {
        self.input@.skip(self.pos as int)
    }

    /// How many lines have been read.
    pub closed spec fn lines(&self) -> nat {
        self.framer.lines()
    }

    /// The position lies in the input, and no more lines than bytes were read.
    pub closed spec fn wf(&self) -> bool {
        self.pos <= self.input@.len() && self.framer.lines() <= self.pos
    }

    /// Wraps an input. Nothing is read until the first call to
    /// [`LineReader::read_line`].
    pub fn new(input: &'a [u8]) -> (reader: Self)
        ensures
            reader.wf(),
            reader.rest() == input@,
            reader.lines() == 0,
    {
        let reader = LineReader { input, pos: 0, framer: LineFramer::new() };
        assert(reader.rest() =~= input@);
        reader
    }

    /// Reads the next line, or `None` at end of input.
    ///
    /// The trailing `\n` (and a preceding `\r`, if present) is stripped. A
    /// UTF-8 byte order mark at the very start of the input is stripped from
    /// the first line only. A final line with no trailing newline is still
    /// returned.
    pub fn read_line(&mut self) -> (line: Option<Line<'a>>)
        requires
            old(self).wf(),
        ensures
            final(self).wf(),
            match line {
                None => old(self).rest().len() == 0 && final(self).rest() == old(self).rest()
                    && final(self).lines() == old(self).lines(),
                Some(line) => {
                    let n = raw_line_len(old(self).rest()) as int;
                    &&& old(self).rest().len() > 0
                    &&& line.wf()
                    &&& line@ == framed(old(self).rest().take(n), old(self).lines())
                    &&& final(self).rest() == old(self).rest().skip(n)
                    &&& final(self).lines() == old(self).lines() + 1
                },
            },
    {
        let input = self.input;
        let start: usize = self.pos;
        if start == input.len() {
            return None;
        }
        let ghost rest = input@.skip(start as int);
        let mut end: usize = start;
        while end < input.len() && input[end] != 0x0A
            invariant
                start <= end <= input@.len(),
                forall|i: int| start <= i < end ==> #[trigger] input@[i] != 0x0A,
            decreases input@.len() - end,
        {
            end = end + 1;
        }
        if end < input.len() {
            end = end + 1;
        }
        proof {
            assert forall|i: int| 0 <= i < end - start - 1 implies #[trigger] rest[i] != 0x0A by {
                assert(input@[start + i] != 0x0A);
            }
            lemma_raw_line_found(rest, end - start);
            assert(rest.take(end - start) =~= input@.subrange(start as int, end as int));
            assert(rest.skip(end - start) =~= input@.skip(end as int));
        }
        let raw = &input[start..end];
        let line = self.framer.frame(raw);
        self.pos = end;
        Some(line)
    }
}

/// The raw lengths of some lines, added up.
pub open spec fn total_raw(lines: Seq<LineModel>) -> nat
    decreases lines.len(),
{
    if lines.len() == 0 {
        0
    } else {
        total_raw(lines.drop_last()) + lines.last().raw_len
    }
}

proof fn lemma_total_raw_concat(a: Seq<LineModel>, b: Seq<LineModel>)
    ensures
        total_raw(a + b) == total_raw(a) + total_raw(b),
    decreases b.len(),
{
    if b.len() == 0 {
        assert(a + b =~= a);
    } else {
        assert((a + b).drop_last() =~= a + b.drop_last());
        lemma_total_raw_concat(a, b.drop_last());
    }
}

/// The lines' raw lengths add up to the exact byte length of the input.
pub proof fn law_raw_lengths_cover_the_input(input: Seq<u8>, number: nat)
    ensures
        total_raw(lines_after(input, number)) == input.len(),
    decreases input.len(),
{
    lemma_raw_line(input);
    if input.len() > 0 {
        let n = raw_line_len(input) as int;
        let head = seq![framed(input.take(n), number)];
        law_raw_lengths_cover_the_input(input.skip(n), number + 1);
        lemma_total_raw_concat(head, lines_after(input.skip(n), number + 1));
        assert(head.drop_last() =~= Seq::empty());
        assert(total_raw(head.drop_last()) == 0);
    }
}

/// Lines are numbered from 1, in order.
pub proof fn law_lines_are_numbered_in_order(input: Seq<u8>, number: nat, i: int)
    requires
        0 <= i < lines_after(input, number).len(),
    ensures
        lines_after(input, number)[i].number == number + i + 1,
    decreases input.len(),
{
    let n = raw_line_len(input) as int;
    if i > 0 {
        law_lines_are_numbered_in_order(input.skip(n), number + 1, i - 1);
    }
}

/// The raw lines of an input, line endings and all.
pub open spec fn raw_lines(input: Seq<u8>) -> Seq<Seq<u8>>
    decreases input.len(),
{
    let n = raw_line_len(input) as int;
    if input.len() == 0 || !(0 < n <= input.len()) {
        Seq::empty()
    } else {
        seq![input.take(n)] + raw_lines(input.skip(n))
    }
}

/// Raw lines in a row.
pub open spec fn all_bytes(raws: Seq<Seq<u8>>) -> Seq<u8>
    decreases raws.len(),
{
    if raws.len() == 0 {
        Seq::empty()
    } else {
        raws[0] + all_bytes(raws.skip(1))
    }
}

/// The raw lines make up the input: nothing is lost between them.
pub proof fn law_raw_lines_make_up_the_input(input: Seq<u8>)
    ensures
        all_bytes(raw_lines(input)) == input,
    decreases input.len(),
{
    lemma_raw_line(input);
    if input.len() > 0 {
        let n = raw_line_len(input) as int;
        law_raw_lines_make_up_the_input(input.skip(n));
        assert(raw_lines(input).skip(1) =~= raw_lines(input.skip(n)));
        assert(input.take(n) + input.skip(n) =~= input);
    } else {
        assert(input =~= Seq::empty());
    }
}

/// Each line is one raw line without its ending. Only the first line of the
/// input loses a byte order mark.
pub proof fn law_lines_are_stripped_raw_lines(input: Seq<u8>, number: nat)
    ensures
        lines_after(input, number).len() == raw_lines(input).len(),
        forall|i: int|
            0 <= i < raw_lines(input).len() ==> (#[trigger] lines_after(input, number)[i]).bytes
                == if number + i == 0 && has_bom(raw_lines(input)[i]) {
                without_newline(raw_lines(input)[i].skip(3))
            } else {
                without_newline(raw_lines(input)[i])
            },
    decreases input.len(),
{
    lemma_raw_line(input);
    if input.len() > 0 {
        let n = raw_line_len(input) as int;
        let rest = input.skip(n);
        let later = lines_after(rest, number + 1);
        law_lines_are_stripped_raw_lines(rest, number + 1);
        assert forall|i: int| 0 <= i < raw_lines(input).len() implies (
        #[trigger] lines_after(input, number)[i]).bytes == (if number + i == 0 && has_bom(
            raw_lines(input)[i],
        ) {
            without_newline(raw_lines(input)[i].skip(3))
        } else {
            without_newline(raw_lines(input)[i])
        }) by {
            if i > 0 {
                assert(lines_after(input, number)[i] == later[i - 1]);
                assert(raw_lines(input)[i] == raw_lines(rest)[i - 1]);
            }
        }
    }
}

/// No line's content holds a newline.
pub proof fn law_contents_hold_no_newline(input: Seq<u8>, number: nat, i: int)
    requires
        0 <= i < lines_after(input, number).len(),
    ensures
        !lines_after(input, number)[i].bytes.contains(0x0Au8),
    decreases input.len(),
{
    lemma_raw_line(input);
    let n = raw_line_len(input) as int;
    if i > 0 {
        law_contents_hold_no_newline(input.skip(n), number + 1, i - 1);
    } else {
        let raw = input.take(n);
        let body = if number == 0 && has_bom(raw) {
            raw.skip(3)
        } else {
            raw
        };
        let off = raw.len() - body.len();
        let bytes = without_newline(body);
        assert forall|k: int| 0 <= k < bytes.len() implies bytes[k] != 0x0A by {
            assert(bytes[k] == body[k]);
            assert(body[k] == raw[k + off]);
            assert(raw[k + off] == input[k + off]);
            if k == body.len() - 1 {
                assert(body.last() == raw[n - 1]);
            }
        }
    }
}

/// A line is blank exactly if it holds nothing but spaces, tabs, line feeds, form
/// feeds and carriage returns.
pub proof fn law_blank_lines_hold_whitespace_alone(bytes: Seq<u8>)
    ensures
        is_blank_line(bytes) <==> forall|i: int|
            0 <= i < bytes.len() ==> (#[trigger] bytes[i] == 0x20 || bytes[i] == 0x09 || bytes[i]
                == 0x0A || bytes[i] == 0x0C || bytes[i] == 0x0D),
{
    if is_blank_line(bytes) {
        assert forall|i: int| 0 <= i < bytes.len() implies (#[trigger] bytes[i] == 0x20 || bytes[i]
            == 0x09 || bytes[i] == 0x0A || bytes[i] == 0x0C || bytes[i] == 0x0D) by {
            assert(is_whitespace(bytes[i]));
        }
    }
}

/// What is left of a raw line: without a byte order mark, if `first` allows for
/// one, and without the line ending, which is `\r\n`, `\n` or nothing.
pub open spec fn is_stripped(raw: Seq<u8>, first: bool, bytes: Seq<u8>) -> bool {
    let mark: int = if first && raw.len() >= 3 && raw.take(3) == seq![0xEFu8, 0xBB, 0xBF] {
        3
    } else {
        0
    };
    let ending: int = if raw.len() >= 2 && raw.skip(raw.len() - 2) == seq![0x0Du8, 0x0A] {
        2
    } else if raw.len() >= 1 && raw.last() == 0x0A {
        1
    } else {
        0
    };
    mark + ending <= raw.len() && bytes == raw.subrange(mark, raw.len() - ending)
}

/// The line with the given number is what a raw line comes to.
pub open spec fn is_line(line: LineModel, raw: Seq<u8>, number: nat) -> bool {
    &&& line.number == number
    &&& line.raw_len == raw.len()
    &&& is_stripped(raw, number == 1, line.bytes)
}

/// Where an input is cut, line `i` lies between two cuts: it ends with its only
/// newline, or at the end of the input.
pub open spec fn cut_at_newlines(input: Seq<u8>, cuts: Seq<int>, i: int) -> bool {
    &&& 0 <= cuts[i] < cuts[i + 1] <= input.len()
    &&& forall|k: int| cuts[i] <= k < cuts[i + 1] - 1 ==> #[trigger] input[k] != 0x0A
    &&& cuts[i + 1] < input.len() ==> input[cuts[i + 1] - 1] == 0x0A
}

proof fn lemma_stripped(raw: Seq<u8>, first: bool)
    ensures
        is_stripped(raw, first, content(raw, first)),
{
    let bytes = content(raw, first);
    if raw.len() >= 3 {
        assert(raw.take(3)[0] == raw[0] && raw.take(3)[1] == raw[1] && raw.take(3)[2] == raw[2]);
        assert(has_bom(raw) <==> raw.take(3) =~= seq![0xEFu8, 0xBB, 0xBF]);
    }
    if raw.len() >= 2 {
        let end = raw.skip(raw.len() - 2);
        assert(end[0] == raw[raw.len() - 2] && end[1] == raw[raw.len() - 1]);
        assert((raw[raw.len() - 2] == 0x0D && raw[raw.len() - 1] == 0x0A) <==> end =~= seq![
            0x0Du8,
            0x0A,
        ]);
    }
    let mark: int = if first && has_bom(raw) {
        3
    } else {
        0
    };
    let body = raw.skip(mark);
    assert(first && has_bom(raw) || body =~= raw);
    if body.len() > 0 {
        assert(body.last() == raw.last());
        if body.len() > 1 {
            assert(body[body.len() - 2] == raw[raw.len() - 2]);
        }
    }
    if mark == 3 && raw.len() == 3 {
        assert(raw.last() == 0xBF);
    }
    if mark == 3 && raw.len() == 4 {
        assert(raw[raw.len() - 2] == 0xBF);
    }
    let ending: int = if raw.len() >= 2 && raw[raw.len() - 2] == 0x0D && raw[raw.len() - 1]
        == 0x0A {
        2
    } else if raw.len() >= 1 && raw.last() == 0x0A {
        1
    } else {
        0
    };
    assert(bytes =~= raw.subrange(mark, raw.len() - ending));
}

/// Line `i` of some lines, which `number` earlier ones precede, is what lies
/// between its cuts.
pub open spec fn lies_between(
    lines: Seq<LineModel>,
    input: Seq<u8>,
    cuts: Seq<int>,
    number: nat,
    i: int,
) -> bool {
    &&& cut_at_newlines(input, cuts, i)
    &&& is_line(lines[i], input.subrange(cuts[i], cuts[i + 1]), (number + i + 1) as nat)
}

/// Lines lie end to end between cuts that start at the first byte of an input and
/// stop after its last.
pub open spec fn lie_between(
    lines: Seq<LineModel>,
    input: Seq<u8>,
    cuts: Seq<int>,
    number: nat,
) -> bool {
    &&& cuts.len() == lines.len() + 1
    &&& cuts[0] == 0
    &&& cuts.last() == input.len()
    &&& forall|i: int|
        0 <= i < lines.len() ==> #[trigger] lies_between(lines, input, cuts, number, i)
}

proof fn lemma_cut_lines(input: Seq<u8>, number: nat) -> (cuts: Seq<int>)
    ensures
        lie_between(lines_after(input, number), input, cuts, number),
    decreases input.len(),
{
    lemma_raw_line(input);
    let lines = lines_after(input, number);
    if input.len() == 0 {
        assert(lie_between(lines, input, seq![0int], number));
        seq![0int]
    } else {
        let n = raw_line_len(input) as int;
        let rest = input.skip(n);
        let later = lines_after(rest, number + 1);
        let inner = lemma_cut_lines(rest, number + 1);
        let cuts = seq![0int] + Seq::new(inner.len(), |k: int| inner[k] + n);
        assert forall|i: int| 0 <= i < lines.len() implies #[trigger] lies_between(
            lines,
            input,
            cuts,
            number,
            i,
        ) by {
            if i == 0 {
                assert(cuts[1] == n);
                assert(input.subrange(0, n) =~= input.take(n));
                lemma_stripped(input.take(n), number == 0);
            } else {
                assert(lines[i] == later[i - 1]);
                assert(lies_between(later, rest, inner, number + 1, i - 1));
                assert(cuts[i] == inner[i - 1] + n && cuts[i + 1] == inner[i] + n);
                assert(rest.subrange(inner[i - 1], inner[i]) =~= input.subrange(
                    cuts[i],
                    cuts[i + 1],
                ));
                assert forall|k: int| cuts[i] <= k < cuts[i + 1] - 1 implies #[trigger] input[k]
                    != 0x0A by {
                    assert(rest[k - n] == input[k]);
                }
                if cuts[i + 1] < input.len() {
                    assert(rest[inner[i] - 1] == input[cuts[i + 1] - 1]);
                }
            }
        }
        assert(cuts.last() == inner.last() + n);
        cuts
    }
}

/// The lines of an input lie end to end between cuts that start at its first byte
/// and stop at its last. Each ends with its only newline, or with the input. Its
/// number counts from 1, its raw length is the distance of its cuts, and its
/// content is what lies between them without the line ending and, on the first
/// line, without a byte order mark.
pub proof fn law_lines_lie_between_newlines(input: Seq<u8>) -> (cuts: Seq<int>)
    ensures
        lie_between(lines_of(input), input, cuts, 0),
{
    lemma_cut_lines(input, 0)
}

/// A framed line has the number that comes next and the length of its raw line, and
/// holds what is left of that, whatever it is.
pub proof fn law_framed_lines_are_stripped(raw: Seq<u8>, number: nat)
    ensures
        is_line(framed(raw, number), raw, number + 1),
{
    lemma_stripped(raw, number == 0);
}

} // verus!
