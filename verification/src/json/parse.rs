//! Reading JSON texts.

use crate::json::grammar::{
    describe, digits_at, digits_end, escape_at, exponent_part, fraction_part, hex_digit, hex_value,
    integer_part, items_at, lemma_digits_end, members_at, number_at, skip_space, string_at,
    text_value, unit_at, value_at, word_at, ErrorKind, Reading, MAX_DEPTH,
};
use crate::json::value::{Json, Value};
use crate::number::{is_digit, read_magnitude};
use crate::text;
use vstd::prelude::*;
use vstd::string::{StringExecFns, StringSliceAdditionalSpecFns};
use vstd::utf8::{decode_first_scalar, encode_utf8, is_scalar, valid_utf8};

verus! {

/// A text that is not JSON, with the byte offset that shows it.
#[derive(Debug, Clone, Copy, PartialEq, Eq, Structural)]
pub struct ParseError {
    /// Zero-based byte offset into the text.
    pub offset: usize,
    /// What went wrong.
    pub kind: ErrorKind,
}

impl ErrorKind {
    /// A short, lowercase description of the problem.
    pub fn message(self) -> (message: &'static str)
        ensures
            message@ == describe(self),
    {
        match self {
            ErrorKind::UnexpectedEnd => "unexpected end of input",
            ErrorKind::ExpectedValue => "expected a value",
            ErrorKind::ExpectedKey => "expected a quoted object key",
            ErrorKind::ExpectedColon => "expected ':' after an object key",
            ErrorKind::ExpectedCommaOrBrace => "expected ',' or '}'",
            ErrorKind::ExpectedCommaOrBracket => "expected ',' or ']'",
            ErrorKind::ExpectedDigit => "expected a digit",
            ErrorKind::ControlCharacter => "unescaped control character in string",
            ErrorKind::InvalidEscape => "invalid escape sequence",
            ErrorKind::UnpairedSurrogate => "unpaired surrogate in string",
            ErrorKind::TooDeep => "nesting is too deep",
            ErrorKind::TrailingCharacters => "unexpected characters after the value",
        }
    }
}

/// The position that a rule without a result gives.
spec fn end_agrees(read: Result<usize, ParseError>, model: Reading<()>, len: nat) -> bool {
    match (read, model) {
        (Ok(end), Reading::Got(_, e)) => end == e && end <= len,
        (Err(error), Reading::Bad(kind, p)) => error.kind == kind && error.offset == p && p <= len,
        _ => false,
    }
}

/// The value and position that a rule gives.
spec fn value_agrees(
    read: Result<(Value, usize), ParseError>,
    model: Reading<Json>,
    from: nat,
    len: nat,
) -> bool {
    match (read, model) {
        (Ok((value, end)), Reading::Got(json, e)) => value.json() == json && end == e && from < end
            <= len,
        (Err(error), Reading::Bad(kind, p)) => error.kind == kind && error.offset == p && p <= len,
        _ => false,
    }
}

fn skip_space_from(b: &[u8], start: usize) -> (end: usize)
    requires
        start <= b@.len(),
    ensures
        end == skip_space(b@, start as nat),
        start <= end <= b@.len(),
{
    let mut i: usize = start;
    while i < b.len() && (b[i] == 0x20 || b[i] == 0x09 || b[i] == 0x0A || b[i] == 0x0D)
        invariant
            start <= i <= b@.len(),
            skip_space(b@, start as nat) == skip_space(b@, i as nat),
        decreases b@.len() - i,
    {
        i = i + 1;
    }
    i
}

fn digits_end_from(b: &[u8], start: usize) -> (end: usize)
    requires
        start <= b@.len(),
    ensures
        end == digits_end(b@, start as nat),
        start <= end <= b@.len(),
{
    let mut i: usize = start;
    while i < b.len() && 0x30 <= b[i] && b[i] <= 0x39
        invariant
            start <= i <= b@.len(),
            digits_end(b@, start as nat) == digits_end(b@, i as nat),
        decreases b@.len() - i,
    {
        i = i + 1;
    }
    i
}

fn read_digits(b: &[u8], i: usize) -> (read: Result<usize, ParseError>)
    requires
        i <= b@.len(),
    ensures
        end_agrees(read, digits_at(b@, i as nat), b@.len()),
        read matches Ok(end) ==> i < end && is_digit(b@[end - 1]),
{
    if i >= b.len() {
        return Err(ParseError { offset: i, kind: ErrorKind::UnexpectedEnd });
    }
    if !(0x30 <= b[i] && b[i] <= 0x39) {
        return Err(ParseError { offset: i, kind: ErrorKind::ExpectedDigit });
    }
    let end: usize = digits_end_from(b, i);
    proof {
        lemma_digits_end(b@, i as nat);
        lemma_digits_end(b@, (i + 1) as nat);
    }
    Ok(end)
}

fn read_integer_part(b: &[u8], i: usize) -> (read: Result<usize, ParseError>)
    requires
        i <= b@.len(),
    ensures
        end_agrees(read, integer_part(b@, i as nat), b@.len()),
        read matches Ok(end) ==> i < end && is_digit(b@[end - 1]),
{
    if i < b.len() && b[i] == 0x30 {
        Ok(i + 1)
    } else {
        read_digits(b, i)
    }
}

fn read_fraction_part(b: &[u8], i: usize) -> (read: Result<usize, ParseError>)
    requires
        i <= b@.len(),
    ensures
        end_agrees(read, fraction_part(b@, i as nat), b@.len()),
        read matches Ok(end) ==> i <= end && (end == i || is_digit(b@[end - 1])),
{
    if i < b.len() && b[i] == 0x2E {
        read_digits(b, i + 1)
    } else {
        Ok(i)
    }
}

fn read_exponent_part(b: &[u8], i: usize) -> (read: Result<usize, ParseError>)
    requires
        i <= b@.len(),
    ensures
        end_agrees(read, exponent_part(b@, i as nat), b@.len()),
        read matches Ok(end) ==> i <= end && (end == i || is_digit(b@[end - 1])),
{
    if i < b.len() && (b[i] == 0x65 || b[i] == 0x45) {
        if i + 1 < b.len() && (b[i + 1] == 0x2B || b[i + 1] == 0x2D) {
            read_digits(b, i + 2)
        } else {
            read_digits(b, i + 1)
        }
    } else {
        Ok(i)
    }
}

fn read_number(text: &str, b: &[u8], i: usize) -> (read: Result<(Value, usize), ParseError>)
    requires
        b@ == text.spec_bytes(),
        i < b@.len(),
        b@[i as int] == 0x2D || is_digit(b@[i as int]),
    ensures
        value_agrees(read, number_at(b@, i as nat), i as nat, b@.len()),
{
    let negative: bool = b[i] == 0x2D;
    let first: usize = if negative {
        i + 1
    } else {
        i
    };
    let int_end: usize = match read_integer_part(b, first) {
        Ok(end) => end,
        Err(e) => {
            return Err(e);
        },
    };
    let frac_end: usize = match read_fraction_part(b, int_end) {
        Ok(end) => end,
        Err(e) => {
            return Err(e);
        },
    };
    let end: usize = match read_exponent_part(b, frac_end) {
        Ok(end) => end,
        Err(e) => {
            return Err(e);
        },
    };
    if int_end == end {
        proof {
            lemma_digits_end(b@, first as nat);
            assert(b@[first as int] == 0x30 ==> int_end == first + 1);
        }
        match read_magnitude(b, first, int_end) {
            Some(m) => {
                if negative && m <= 0x8000_0000_0000_0000 {
                    let n: i64 = if m == 0x8000_0000_0000_0000 {
                        i64::MIN
                    } else {
                        -(m as i64)
                    };
                    return Ok((Value::Int(n), end));
                }
                if !negative && m <= 0x7fff_ffff_ffff_ffff {
                    return Ok((Value::Int(m as i64), end));
                }
            },
            None => {},
        }
    }
    proof {
        vstd::utf8::encode_utf8_valid_utf8(text@);
        assert(is_digit(b@[end - 1]));
        text::lemma_next_cut(b@, end - 1);
    }
    Ok((Value::Float(text::slice(text, i, end).to_owned()), end))
}

fn read_hex_digit(byte: u8) -> (value: Option<u32>)
    ensures
        match value {
            Some(n) => hex_digit(byte) == Some(n as nat) && n < 16,
            None => hex_digit(byte) is None,
        },
{
    if 0x30 <= byte && byte <= 0x39 {
        Some((byte - 0x30) as u32)
    } else if 0x41 <= byte && byte <= 0x46 {
        Some((byte - 0x41 + 10) as u32)
    } else if 0x61 <= byte && byte <= 0x66 {
        Some((byte - 0x61 + 10) as u32)
    } else {
        None
    }
}

/// The code unit of a `\u` escape.
fn read_unit(b: &[u8], i: usize) -> (unit: Option<u32>)
    requires
        i <= b@.len(),
    ensures
        match unit {
            Some(n) => unit_at(b@, i as nat) == Some(n as nat) && n <= 0xFFFF && i + 6
                <= b@.len() && b@[i + 5] <= 0x7f,
            None => unit_at(b@, i as nat) is None,
        },
{
    if b.len() - i < 2 || b[i] != 0x5C || b[i + 1] != 0x75 {
        return None;
    }
    reveal_with_fuel(hex_value, 5);
    if b.len() - i < 6 {
        return None;
    }
    let d0: u32 = match read_hex_digit(b[i + 2]) {
        Some(d) => d,
        None => {
            return None;
        },
    };
    let d1: u32 = match read_hex_digit(b[i + 3]) {
        Some(d) => d,
        None => {
            return None;
        },
    };
    let d2: u32 = match read_hex_digit(b[i + 4]) {
        Some(d) => d,
        None => {
            return None;
        },
    };
    let d3: u32 = match read_hex_digit(b[i + 5]) {
        Some(d) => d,
        None => {
            return None;
        },
    };
    Some(((d0 * 16 + d1) * 16 + d2) * 16 + d3)
}

/// The character that an escape sequence stands for, as its code point.
fn read_escape(b: &[u8], i: usize) -> (read: Result<(u32, usize), ParseError>)
    requires
        i < b@.len(),
        b@[i as int] == 0x5C,
    ensures
        match (read, escape_at(b@, i as nat)) {
            (Ok((code, next)), Reading::Got(c, n)) => is_scalar(code) && code as char == c && next
                == n && i < next <= b@.len() && b@[next - 1] <= 0x7f,
            (Err(error), Reading::Bad(kind, p)) => error.kind == kind && error.offset == p && p
                <= b@.len(),
            _ => false,
        },
{
    if b.len() - i < 2 {
        return Err(ParseError { offset: i + 1, kind: ErrorKind::UnexpectedEnd });
    }
    let c: u8 = b[i + 1];
    if c == 0x22 {
        Ok((0x22, i + 2))
    } else if c == 0x5C {
        Ok((0x5C, i + 2))
    } else if c == 0x2F {
        Ok((0x2F, i + 2))
    } else if c == 0x62 {
        Ok((0x08, i + 2))
    } else if c == 0x66 {
        Ok((0x0C, i + 2))
    } else if c == 0x6E {
        Ok((0x0A, i + 2))
    } else if c == 0x72 {
        Ok((0x0D, i + 2))
    } else if c == 0x74 {
        Ok((0x09, i + 2))
    } else if c == 0x75 {
        match read_unit(b, i) {
            None => Err(ParseError { offset: i, kind: ErrorKind::InvalidEscape }),
            Some(unit) => {
                if 0xD800 <= unit && unit <= 0xDBFF {
                    match read_unit(b, i + 6) {
                        Some(low) => {
                            if 0xDC00 <= low && low <= 0xDFFF {
                                Ok((0x10000 + (unit - 0xD800) * 0x400 + (low - 0xDC00), i + 12))
                            } else {
                                Err(
                                    ParseError {
                                        offset: i,
                                        kind: ErrorKind::UnpairedSurrogate,
                                    },
                                )
                            }
                        },
                        None => Err(
                            ParseError { offset: i, kind: ErrorKind::UnpairedSurrogate },
                        ),
                    }
                } else if 0xDC00 <= unit && unit <= 0xDFFF {
                    Err(ParseError { offset: i, kind: ErrorKind::UnpairedSurrogate })
                } else {
                    Ok((unit, i + 6))
                }
            },
        }
    } else {
        Err(ParseError { offset: i, kind: ErrorKind::InvalidEscape })
    }
}

/// Reads a string from inside its quotes.
fn read_string(text: &str, b: &[u8], start: usize) -> (read: Result<(String, usize), ParseError>)
    requires
        b@ == text.spec_bytes(),
        1 <= start <= b@.len(),
        b@[start - 1] == 0x22,
    ensures
        match (read, string_at(b@, start as nat, Seq::empty())) {
            (Ok((s, end)), Reading::Got(model, e)) => s@ == model && end == e && start < end
                <= b@.len(),
            (Err(error), Reading::Bad(kind, p)) => error.kind == kind && error.offset == p && p
                <= b@.len(),
            _ => false,
        },
{
    let mut out: String = String::new();
    let mut i: usize = start;
    proof {
        vstd::utf8::encode_utf8_valid_utf8(text@);
        text::lemma_next_cut(b@, start - 1);
    }
    while i < b.len()
        invariant
            b@ == text.spec_bytes(),
            valid_utf8(b@),
            start <= i <= b@.len(),
            text::is_cut(b@, i as int),
            string_at(b@, start as nat, Seq::empty()) == string_at(b@, i as nat, out@),
        decreases b@.len() - i,
    {
        let byte: u8 = b[i];
        if byte == 0x22 {
            return Ok((out, i + 1));
        }
        if byte == 0x5C {
            match read_escape(b, i) {
                Err(e) => {
                    return Err(e);
                },
                Ok((code, next)) => {
                    text::append_scalar(&mut out, code);
                    proof {
                        text::lemma_next_cut(b@, next - 1);
                    }
                    i = next;
                },
            }
        } else if byte < 0x20 {
            return Err(ParseError { offset: i, kind: ErrorKind::ControlCharacter });
        } else {
            let width: usize = text::scalar_width(b, i);
            let ghost before = out@;
            proof {
                text::lemma_next_cut(b@, i as int);
            }
            let piece = text::slice(text, i, i + width);
            out.append(piece);
            proof {
                let rest = b@.skip(i as int);
                let bit = b@.subrange(i as int, i + width);
                text::lemma_one_scalar(rest);
                assert(bit =~= rest.take(width as int));
                assert(out@ =~= before.push(decode_first_scalar(rest) as char));
            }
            i = i + width;
        }
    }
    Err(ParseError { offset: i, kind: ErrorKind::UnexpectedEnd })
}

/// Whether the bytes of `word` stand at `i`.
fn has_word(b: &[u8], i: usize, word: &[u8]) -> (found: bool)
    requires
        i <= b@.len(),
    ensures
        found == word_at(b@, i as nat, word@),
        found ==> i + word@.len() <= usize::MAX,
{
    if b.len() - i < word.len() {
        return false;
    }
    let ghost part = b@.subrange(i as int, i + word@.len());
    let mut k: usize = 0;
    while k < word.len()
        invariant
            i + word@.len() <= b@.len() <= usize::MAX,
            part == b@.subrange(i as int, i + word@.len()),
            k <= word@.len(),
            forall|j: int| 0 <= j < k ==> part[j] == #[trigger] word@[j],
        decreases word@.len() - k,
    {
        assert(part[k as int] == b@[i + k]);
        if b[i + k] != word[k] {
            return false;
        }
        k = k + 1;
    }
    assert(part =~= word@);
    true
}

fn read_word(b: &[u8], i: usize) -> (read: Result<(Value, usize), ParseError>)
    requires
        i < b@.len(),
        b@[i as int] != 0x22,
        b@[i as int] != 0x7B,
        b@[i as int] != 0x5B,
        b@[i as int] != 0x2D,
        !is_digit(b@[i as int]),
    ensures
        forall|depth: nat|
            value_agrees(read, #[trigger] value_at(b@, i as nat, depth), i as nat, b@.len()),
{
    let word_true: [u8; 4] = [0x74, 0x72, 0x75, 0x65];
    let word_false: [u8; 5] = [0x66, 0x61, 0x6C, 0x73, 0x65];
    let word_null: [u8; 4] = [0x6E, 0x75, 0x6C, 0x6C];
    assert(word_true@ =~= seq![0x74, 0x72, 0x75, 0x65]);
    assert(word_false@ =~= seq![0x66, 0x61, 0x6C, 0x73, 0x65]);
    assert(word_null@ =~= seq![0x6E, 0x75, 0x6C, 0x6C]);
    if has_word(b, i, &word_true) {
        Ok((Value::Bool(true), i + 4))
    } else if has_word(b, i, &word_false) {
        Ok((Value::Bool(false), i + 5))
    } else if has_word(b, i, &word_null) {
        Ok((Value::Null, i + 4))
    } else {
        Err(ParseError { offset: i, kind: ErrorKind::ExpectedValue })
    }
}

fn read_value(text: &str, b: &[u8], i: usize, depth: usize) -> (read: Result<
    (Value, usize),
    ParseError,
>)
    requires
        b@ == text.spec_bytes(),
        i <= b@.len(),
    ensures
        value_agrees(read, value_at(b@, i as nat, depth as nat), i as nat, b@.len()),
    decreases depth, 0nat,
{
    if i >= b.len() {
        return Err(ParseError { offset: i, kind: ErrorKind::UnexpectedEnd });
    }
    let byte: u8 = b[i];
    if byte == 0x22 {
        match read_string(text, b, i + 1) {
            Ok((s, end)) => Ok((Value::Str(s), end)),
            Err(e) => Err(e),
        }
    } else if byte == 0x7B {
        if depth == 0 {
            return Err(ParseError { offset: i, kind: ErrorKind::TooDeep });
        }
        let first: usize = skip_space_from(b, i + 1);
        if first < b.len() && b[first] == 0x7D {
            let empty: Value = Value::Object(Vec::new());
            assert(empty.json()->Object_0 =~= Seq::empty());
            return Ok((empty, first + 1));
        }
        read_members(text, b, first, depth - 1)
    } else if byte == 0x5B {
        if depth == 0 {
            return Err(ParseError { offset: i, kind: ErrorKind::TooDeep });
        }
        let first: usize = skip_space_from(b, i + 1);
        if first < b.len() && b[first] == 0x5D {
            let empty: Value = Value::Array(Vec::new());
            assert(empty.json()->Array_0 =~= Seq::empty());
            return Ok((empty, first + 1));
        }
        read_items(text, b, first, depth - 1)
    } else if byte == 0x2D || (0x30 <= byte && byte <= 0x39) {
        read_number(text, b, i)
    } else {
        read_word(b, i)
    }
}

fn read_members(text: &str, b: &[u8], start: usize, depth: usize) -> (read: Result<
    (Value, usize),
    ParseError,
>)
    requires
        b@ == text.spec_bytes(),
        start <= b@.len(),
    ensures
        value_agrees(
            read,
            members_at(b@, start as nat, depth as nat, Seq::empty()),
            start as nat,
            b@.len(),
        ),
    decreases depth, 1nat,
{
    let mut members: Vec<(String, Value)> = Vec::new();
    let ghost mut done: Seq<(Seq<char>, Json)> = Seq::empty();
    let mut i: usize = start;
    while i < b.len()
        invariant
            b@ == text.spec_bytes(),
            start <= i <= b@.len(),
            done.len() == members@.len(),
            forall|k: int|
                0 <= k < done.len() ==> #[trigger] done[k] == (
                    members@[k].0@,
                    members@[k].1.json(),
                ),
            members_at(b@, start as nat, depth as nat, Seq::empty()) == members_at(
                b@,
                i as nat,
                depth as nat,
                done,
            ),
        decreases b@.len() - i,
    {
        if b[i] != 0x22 {
            return Err(ParseError { offset: i, kind: ErrorKind::ExpectedKey });
        }
        let (key, key_end): (String, usize) = match read_string(text, b, i + 1) {
            Ok(pair) => pair,
            Err(e) => {
                return Err(e);
            },
        };
        let colon: usize = skip_space_from(b, key_end);
        if colon >= b.len() {
            return Err(ParseError { offset: colon, kind: ErrorKind::UnexpectedEnd });
        }
        if b[colon] != 0x3A {
            return Err(ParseError { offset: colon, kind: ErrorKind::ExpectedColon });
        }
        let at: usize = skip_space_from(b, colon + 1);
        let (value, end): (Value, usize) = match read_value(text, b, at, depth) {
            Ok(pair) => pair,
            Err(e) => {
                return Err(e);
            },
        };
        let next: usize = skip_space_from(b, end);
        proof {
            done = done.push((key@, value.json()));
        }
        members.push((key, value));
        if next >= b.len() {
            return Err(ParseError { offset: next, kind: ErrorKind::UnexpectedEnd });
        }
        if b[next] == 0x7D {
            let object: Value = Value::Object(members);
            assert(object.json()->Object_0 =~= done);
            return Ok((object, next + 1));
        }
        if b[next] != 0x2C {
            return Err(ParseError { offset: next, kind: ErrorKind::ExpectedCommaOrBrace });
        }
        i = skip_space_from(b, next + 1);
    }
    Err(ParseError { offset: i, kind: ErrorKind::UnexpectedEnd })
}

fn read_items(text: &str, b: &[u8], start: usize, depth: usize) -> (read: Result<
    (Value, usize),
    ParseError,
>)
    requires
        b@ == text.spec_bytes(),
        start <= b@.len(),
    ensures
        value_agrees(
            read,
            items_at(b@, start as nat, depth as nat, Seq::empty()),
            start as nat,
            b@.len(),
        ),
    decreases depth, 1nat,
{
    let mut items: Vec<Value> = Vec::new();
    let ghost mut done: Seq<Json> = Seq::empty();
    let mut i: usize = start;
    while i < b.len()
        invariant
            b@ == text.spec_bytes(),
            start <= i <= b@.len(),
            done.len() == items@.len(),
            forall|k: int| 0 <= k < done.len() ==> #[trigger] done[k] == items@[k].json(),
            items_at(b@, start as nat, depth as nat, Seq::empty()) == items_at(
                b@,
                i as nat,
                depth as nat,
                done,
            ),
        decreases b@.len() - i,
    {
        let (value, end): (Value, usize) = match read_value(text, b, i, depth) {
            Ok(pair) => pair,
            Err(e) => {
                return Err(e);
            },
        };
        let next: usize = skip_space_from(b, end);
        proof {
            done = done.push(value.json());
        }
        items.push(value);
        if next >= b.len() {
            return Err(ParseError { offset: next, kind: ErrorKind::UnexpectedEnd });
        }
        if b[next] == 0x5D {
            let array: Value = Value::Array(items);
            assert(array.json()->Array_0 =~= done);
            return Ok((array, next + 1));
        }
        if b[next] != 0x2C {
            return Err(ParseError { offset: next, kind: ErrorKind::ExpectedCommaOrBracket });
        }
        i = skip_space_from(b, next + 1);
    }
    assert(value_at(b@, i as nat, depth as nat) == Reading::<Json>::Bad(
        ErrorKind::UnexpectedEnd,
        i as nat,
    ));
    Err(ParseError { offset: i, kind: ErrorKind::UnexpectedEnd })
}

/// Reads a text as one JSON value.
pub fn parse(text: &str) -> (parsed: Result<Value, ParseError>)
    ensures
        match (parsed, text_value(encode_utf8(text@))) {
            (Ok(value), Reading::Got(json, _)) => value.json() == json,
            (Err(error), Reading::Bad(kind, p)) => error.kind == kind && error.offset == p
                && error.offset <= encode_utf8(text@).len(),
            _ => false,
        },
{
    let b = text.as_bytes();
    let start: usize = skip_space_from(b, 0);
    match read_value(text, b, start, MAX_DEPTH) {
        Err(e) => Err(e),
        Ok((value, end)) => {
            let next: usize = skip_space_from(b, end);
            if next < b.len() {
                Err(ParseError { offset: next, kind: ErrorKind::TrailingCharacters })
            } else {
                Ok(value)
            }
        },
    }
}

} // verus!
