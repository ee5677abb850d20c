//! The grammar of JSON texts, as a function from bytes to values.
//!
//! A text is read from left to right. Each rule says what it reads from a
//! position and where it stops, or what is wrong and where.

use crate::json::value::{items_size, members_size, size, Json};
use crate::number::{digits_value, is_digit};
use vstd::prelude::*;
use vstd::utf8::{decode_first_scalar, decode_utf8, length_of_first_scalar};

verus! {

/// How deeply arrays and objects may be nested. Deeper texts are refused, so
/// that reading one cannot exhaust the stack.
pub const MAX_DEPTH: usize = 128;

/// What is wrong with a text.
#[derive(Debug, Clone, Copy, PartialEq, Eq, Structural)]
pub enum ErrorKind {
    /// The text ends where more is needed.
    UnexpectedEnd,
    /// No value starts here.
    ExpectedValue,
    /// No object key starts here.
    ExpectedKey,
    /// An object key is not followed by a colon.
    ExpectedColon,
    /// An object member is followed by neither a comma nor a brace.
    ExpectedCommaOrBrace,
    /// An array element is followed by neither a comma nor a bracket.
    ExpectedCommaOrBracket,
    /// A number lacks a digit.
    ExpectedDigit,
    /// A string holds a control character that is not escaped.
    ControlCharacter,
    /// A backslash starts no escape sequence.
    InvalidEscape,
    /// A `\u` escape names half of a surrogate pair.
    UnpairedSurrogate,
    /// Arrays and objects are nested more than [`MAX_DEPTH`] deep.
    TooDeep,
    /// Something follows the value.
    TrailingCharacters,
}

/// The description of an error.
pub open spec fn describe(kind: ErrorKind) -> Seq<char> {
    match kind {
        ErrorKind::UnexpectedEnd => "unexpected end of input"@,
        ErrorKind::ExpectedValue => "expected a value"@,
        ErrorKind::ExpectedKey => "expected a quoted object key"@,
        ErrorKind::ExpectedColon => "expected ':' after an object key"@,
        ErrorKind::ExpectedCommaOrBrace => "expected ',' or '}'"@,
        ErrorKind::ExpectedCommaOrBracket => "expected ',' or ']'"@,
        ErrorKind::ExpectedDigit => "expected a digit"@,
        ErrorKind::ControlCharacter => "unescaped control character in string"@,
        ErrorKind::InvalidEscape => "invalid escape sequence"@,
        ErrorKind::UnpairedSurrogate => "unpaired surrogate in string"@,
        ErrorKind::TooDeep => "nesting is too deep"@,
        ErrorKind::TrailingCharacters => "unexpected characters after the value"@,
    }
}

/// What a rule makes of a text: a result and the position after it, or an
/// error and its position.
pub enum Reading<T> {
    Got(T, nat),
    Bad(ErrorKind, nat),
}

/// Whitespace between tokens: space, tab, line feed and carriage return.
pub open spec fn is_space(byte: u8) -> bool {
    byte == 0x20 || byte == 0x09 || byte == 0x0A || byte == 0x0D
}

/// The first position from `i` on that holds no whitespace.
pub open spec fn skip_space(b: Seq<u8>, i: nat) -> nat
    decreases b.len() - i,
{
    if i < b.len() && is_space(b[i as int]) {
        skip_space(b, i + 1)
    } else {
        i
    }
}

/// The first position from `i` on that holds no digit.
pub open spec fn digits_end(b: Seq<u8>, i: nat) -> nat
    decreases b.len() - i,
{
    if i < b.len() && is_digit(b[i as int]) {
        digits_end(b, i + 1)
    } else {
        i
    }
}

/// The byte at `i` is `byte`.
pub open spec fn at(b: Seq<u8>, i: nat, byte: u8) -> bool {
    i < b.len() && b[i as int] == byte
}

/// Where a run of at least one digit from `i` on ends.
pub open spec fn digits_at(b: Seq<u8>, i: nat) -> Reading<()> {
    if i >= b.len() {
        Reading::Bad(ErrorKind::UnexpectedEnd, i)
    } else if !is_digit(b[i as int]) {
        Reading::Bad(ErrorKind::ExpectedDigit, i)
    } else {
        Reading::Got((), digits_end(b, i))
    }
}

/// The integer part: a lone zero, or digits that start with no zero.
pub open spec fn integer_part(b: Seq<u8>, i: nat) -> Reading<()> {
    if at(b, i, 0x30) {
        Reading::Got((), i + 1)
    } else {
        digits_at(b, i)
    }
}

/// The fraction, if a point starts one.
pub open spec fn fraction_part(b: Seq<u8>, i: nat) -> Reading<()> {
    if at(b, i, 0x2E) {
        digits_at(b, i + 1)
    } else {
        Reading::Got((), i)
    }
}

/// The exponent, if an `e` or `E` starts one.
pub open spec fn exponent_part(b: Seq<u8>, i: nat) -> Reading<()> {
    if at(b, i, 0x65) || at(b, i, 0x45) {
        if at(b, i + 1, 0x2B) || at(b, i + 1, 0x2D) {
            digits_at(b, i + 2)
        } else {
            digits_at(b, i + 1)
        }
    } else {
        Reading::Got((), i)
    }
}

/// The number spelled from `from` to `to`, whose integer part ends at
/// `int_end`: an integer if it has no other part and fits 64 bits.
pub open spec fn number_value(b: Seq<u8>, from: nat, int_end: nat, to: nat) -> Json {
    let negative = at(b, from, 0x2D);
    let first = if negative {
        from + 1
    } else {
        from
    };
    let magnitude = digits_value(b, first, int_end) as int;
    let value = if negative {
        -magnitude
    } else {
        magnitude
    };
    if int_end == to && i64::MIN <= value <= i64::MAX {
        Json::Int(value)
    } else {
        Json::Float(decode_utf8(b.subrange(from as int, to as int)))
    }
}

/// A number.
pub open spec fn number_at(b: Seq<u8>, i: nat) -> Reading<Json> {
    let first = if at(b, i, 0x2D) {
        i + 1
    } else {
        i
    };
    match integer_part(b, first) {
        Reading::Bad(kind, p) => Reading::Bad(kind, p),
        Reading::Got(_, int_end) => match fraction_part(b, int_end) {
            Reading::Bad(kind, p) => Reading::Bad(kind, p),
            Reading::Got(_, frac_end) => match exponent_part(b, frac_end) {
                Reading::Bad(kind, p) => Reading::Bad(kind, p),
                Reading::Got(_, end) => Reading::Got(number_value(b, i, int_end, end), end),
            },
        },
    }
}

/// The value of a hexadecimal digit.
pub open spec fn hex_digit(byte: u8) -> Option<nat> {
    if 0x30 <= byte <= 0x39 {
        Some((byte - 0x30) as nat)
    } else if 0x41 <= byte <= 0x46 {
        Some((byte - 0x41 + 10) as nat)
    } else if 0x61 <= byte <= 0x66 {
        Some((byte - 0x61 + 10) as nat)
    } else {
        None
    }
}

/// The value of the `n` hexadecimal digits at `i`.
pub open spec fn hex_value(b: Seq<u8>, i: nat, n: nat) -> Option<nat>
    decreases n,
{
    if n == 0 {
        Some(0)
    } else if i + n > b.len() {
        None
    } else {
        match (hex_value(b, i, (n - 1) as nat), hex_digit(b[i + n - 1])) {
            (Some(high), Some(low)) => Some(high * 16 + low),
            _ => None,
        }
    }
}

/// A `\u` escape at `i`: the code unit its four hexadecimal digits give.
pub open spec fn unit_at(b: Seq<u8>, i: nat) -> Option<nat> {
    if at(b, i, 0x5C) && at(b, i + 1, 0x75) {
        hex_value(b, i + 2, 4)
    } else {
        None
    }
}

/// The character that two surrogates stand for.
pub open spec fn surrogate_pair(high: nat, low: nat) -> nat {
    (0x10000 + (high - 0xD800) * 0x400 + (low - 0xDC00)) as nat
}

/// The escape sequence whose backslash is at `i`.
pub open spec fn escape_at(b: Seq<u8>, i: nat) -> Reading<char> {
    if i + 1 >= b.len() {
        Reading::Bad(ErrorKind::UnexpectedEnd, i + 1)
    } else {
        let c = b[(i + 1) as int];
        if c == 0x22 {
            Reading::Got('"', i + 2)
        } else if c == 0x5C {
            Reading::Got('\\', i + 2)
        } else if c == 0x2F {
            Reading::Got('/', i + 2)
        } else if c == 0x62 {
            Reading::Got('\u{8}', i + 2)
        } else if c == 0x66 {
            Reading::Got('\u{c}', i + 2)
        } else if c == 0x6E {
            Reading::Got('\n', i + 2)
        } else if c == 0x72 {
            Reading::Got('\r', i + 2)
        } else if c == 0x74 {
            Reading::Got('\t', i + 2)
        } else if c == 0x75 {
            match unit_at(b, i) {
                None => Reading::Bad(ErrorKind::InvalidEscape, i),
                Some(unit) => if 0xD800 <= unit <= 0xDBFF {
                    match unit_at(b, i + 6) {
                        Some(low) => if 0xDC00 <= low <= 0xDFFF {
                            Reading::Got(surrogate_pair(unit, low) as char, i + 12)
                        } else {
                            Reading::Bad(ErrorKind::UnpairedSurrogate, i)
                        },
                        None => Reading::Bad(ErrorKind::UnpairedSurrogate, i),
                    }
                } else if 0xDC00 <= unit <= 0xDFFF {
                    Reading::Bad(ErrorKind::UnpairedSurrogate, i)
                } else {
                    Reading::Got(unit as char, i + 6)
                },
            }
        } else {
            Reading::Bad(ErrorKind::InvalidEscape, i)
        }
    }
}

/// The rest of a string from inside its quotes, after the characters `done`.
pub open spec fn string_at(b: Seq<u8>, i: nat, done: Seq<char>) -> Reading<Seq<char>>
    decreases
            if i < b.len() {
                b.len() - i
            } else {
                0
            },
{
    if i >= b.len() {
        Reading::Bad(ErrorKind::UnexpectedEnd, i)
    } else if b[i as int] == 0x22 {
        Reading::Got(done, i + 1)
    } else if b[i as int] == 0x5C {
        match escape_at(b, i) {
            Reading::Bad(kind, p) => Reading::Bad(kind, p),
            Reading::Got(c, next) => string_at(b, next, done.push(c)),
        }
    } else if b[i as int] < 0x20 {
        Reading::Bad(ErrorKind::ControlCharacter, i)
    } else {
        let rest = b.skip(i as int);
        string_at(
            b,
            (i + length_of_first_scalar(rest)) as nat,
            done.push(decode_first_scalar(rest) as char),
        )
    }
}

/// The bytes of `word` stand at `i`.
pub open spec fn word_at(b: Seq<u8>, i: nat, word: Seq<u8>) -> bool {
    i + word.len() <= b.len() && b.subrange(i as int, (i + word.len()) as int) == word
}

/// A value that starts at `i`, with `depth` levels of nesting left.
pub open spec fn value_at(b: Seq<u8>, i: nat, depth: nat) -> Reading<Json>
    decreases depth, 0nat, 0nat,
{
    if i >= b.len() {
        Reading::Bad(ErrorKind::UnexpectedEnd, i)
    } else if b[i as int] == 0x22 {
        match string_at(b, i + 1, Seq::empty()) {
            Reading::Bad(kind, p) => Reading::Bad(kind, p),
            Reading::Got(s, end) => Reading::Got(Json::Str(s), end),
        }
    } else if b[i as int] == 0x7B {
        if depth == 0 {
            Reading::Bad(ErrorKind::TooDeep, i)
        } else if at(b, skip_space(b, i + 1), 0x7D) {
            Reading::Got(Json::Object(Seq::empty()), skip_space(b, i + 1) + 1)
        } else {
            members_at(b, skip_space(b, i + 1), (depth - 1) as nat, Seq::empty())
        }
    } else if b[i as int] == 0x5B {
        if depth == 0 {
            Reading::Bad(ErrorKind::TooDeep, i)
        } else if at(b, skip_space(b, i + 1), 0x5D) {
            Reading::Got(Json::Array(Seq::empty()), skip_space(b, i + 1) + 1)
        } else {
            items_at(b, skip_space(b, i + 1), (depth - 1) as nat, Seq::empty())
        }
    } else if b[i as int] == 0x2D || is_digit(b[i as int]) {
        number_at(b, i)
    } else if word_at(b, i, seq![0x74, 0x72, 0x75, 0x65]) {
        Reading::Got(Json::Bool(true), i + 4)
    } else if word_at(b, i, seq![0x66, 0x61, 0x6C, 0x73, 0x65]) {
        Reading::Got(Json::Bool(false), i + 5)
    } else if word_at(b, i, seq![0x6E, 0x75, 0x6C, 0x6C]) {
        Reading::Got(Json::Null, i + 4)
    } else {
        Reading::Bad(ErrorKind::ExpectedValue, i)
    }
}

/// The rest of an object from the key at `i` on, after the members `done`.
/// (A member never ends before it starts; saying so makes the definition
/// well-founded.)
pub open spec fn members_at(
    b: Seq<u8>,
    i: nat,
    depth: nat,
    done: Seq<(Seq<char>, Json)>,
) -> Reading<Json>
    decreases depth, 1nat, b.len() - i,
{
    if i >= b.len() {
        Reading::Bad(ErrorKind::UnexpectedEnd, i)
    } else if b[i as int] != 0x22 {
        Reading::Bad(ErrorKind::ExpectedKey, i)
    } else {
        match string_at(b, i + 1, Seq::empty()) {
            Reading::Bad(kind, p) => Reading::Bad(kind, p),
            Reading::Got(key, key_end) => {
                let colon = skip_space(b, key_end);
                if colon >= b.len() {
                    Reading::Bad(ErrorKind::UnexpectedEnd, colon)
                } else if b[colon as int] != 0x3A {
                    Reading::Bad(ErrorKind::ExpectedColon, colon)
                } else {
                    match value_at(b, skip_space(b, colon + 1), depth) {
                        Reading::Bad(kind, p) => Reading::Bad(kind, p),
                        Reading::Got(v, end) => {
                            let next = skip_space(b, end);
                            let so_far = done.push((key, v));
                            if next >= b.len() {
                                Reading::Bad(ErrorKind::UnexpectedEnd, next)
                            } else if b[next as int] == 0x7D {
                                Reading::Got(Json::Object(so_far), next + 1)
                            } else if b[next as int] == 0x2C && i <= next {
                                proof {
                                    lemma_skip_space(b, next + 1);
                                }
                                members_at(b, skip_space(b, next + 1), depth, so_far)
                            } else {
                                Reading::Bad(ErrorKind::ExpectedCommaOrBrace, next)
                            }
                        },
                    }
                }
            },
        }
    }
}

/// The rest of an array from the element at `i` on, after the elements `done`.
pub open spec fn items_at(b: Seq<u8>, i: nat, depth: nat, done: Seq<Json>) -> Reading<Json>
    decreases depth, 1nat, b.len() - i,
{
    match value_at(b, i, depth) {
        Reading::Bad(kind, p) => Reading::Bad(kind, p),
        Reading::Got(v, end) => {
            let next = skip_space(b, end);
            let so_far = done.push(v);
            if next >= b.len() {
                Reading::Bad(ErrorKind::UnexpectedEnd, next)
            } else if b[next as int] == 0x5D {
                Reading::Got(Json::Array(so_far), next + 1)
            } else if b[next as int] == 0x2C && i <= next {
                proof {
                    lemma_skip_space(b, next + 1);
                }
                items_at(b, skip_space(b, next + 1), depth, so_far)
            } else {
                Reading::Bad(ErrorKind::ExpectedCommaOrBracket, next)
            }
        },
    }
}

/// A text as a whole: one value, with whitespace around it and nothing else.
pub open spec fn text_value(b: Seq<u8>) -> Reading<Json> {
    match value_at(b, skip_space(b, 0), MAX_DEPTH as nat) {
        Reading::Bad(kind, p) => Reading::Bad(kind, p),
        Reading::Got(v, end) => {
            let next = skip_space(b, end);
            if next < b.len() {
                Reading::Bad(ErrorKind::TrailingCharacters, next)
            } else {
                Reading::Got(v, next)
            }
        },
    }
}

/// Skipping whitespace goes forward and stays within the text.
pub proof fn lemma_skip_space(b: Seq<u8>, i: nat)
    ensures
        i <= skip_space(b, i),
        i <= b.len() ==> skip_space(b, i) <= b.len(),
        skip_space(b, i) < b.len() ==> !is_space(b[skip_space(b, i) as int]),
    decreases b.len() - i,
{
    if i < b.len() && is_space(b[i as int]) {
        lemma_skip_space(b, i + 1);
    }
}

pub(crate) proof fn lemma_digits_end(b: Seq<u8>, i: nat)
    ensures
        i <= digits_end(b, i),
        i <= b.len() ==> digits_end(b, i) <= b.len(),
        forall|k: int| i <= k < digits_end(b, i) ==> is_digit(#[trigger] b[k]),
        digits_end(b, i) < b.len() ==> !is_digit(b[digits_end(b, i) as int]),
    decreases b.len() - i,
{
    if i < b.len() && is_digit(b[i as int]) {
        lemma_digits_end(b, i + 1);
    }
}

proof fn lemma_digits_at(b: Seq<u8>, i: nat)
    ensures
        digits_at(b, i) matches Reading::Got(_, end) ==> i < end <= b.len(),
{
    if i < b.len() {
        lemma_digits_end(b, i);
        lemma_digits_end(b, i + 1);
    }
}

proof fn lemma_number_end(b: Seq<u8>, i: nat)
    ensures
        number_at(b, i) matches Reading::Got(json, end) ==> i < end <= b.len() && size(json) == 1,
{
    let first = if at(b, i, 0x2D) {
        i + 1
    } else {
        i
    };
    lemma_digits_at(b, first);
    match integer_part(b, first) {
        Reading::Bad(_, _) => {},
        Reading::Got(_, int_end) => {
            lemma_digits_at(b, int_end + 1);
            match fraction_part(b, int_end) {
                Reading::Bad(_, _) => {},
                Reading::Got(_, frac_end) => {
                    lemma_digits_at(b, frac_end + 1);
                    lemma_digits_at(b, frac_end + 2);
                },
            }
        },
    }
}

pub(crate) proof fn lemma_string_end(b: Seq<u8>, i: nat, done: Seq<char>)
    ensures
        string_at(b, i, done) matches Reading::Got(_, end) ==> i < end <= b.len(),
    decreases
            if i < b.len() {
                b.len() - i
            } else {
                0
            },
{
    if i < b.len() && b[i as int] != 0x22 {
        if b[i as int] == 0x5C {
            match escape_at(b, i) {
                Reading::Bad(_, _) => {},
                Reading::Got(c, next) => {
                    lemma_string_end(b, next, done.push(c));
                },
            }
        } else if b[i as int] >= 0x20 {
            let rest = b.skip(i as int);
            lemma_string_end(
                b,
                (i + length_of_first_scalar(rest)) as nat,
                done.push(decode_first_scalar(rest) as char),
            );
        }
    }
}

/// Each value that a text holds takes up at least one byte of it.
pub(crate) proof fn lemma_value_size(b: Seq<u8>, i: nat, depth: nat)
    ensures
        value_at(b, i, depth) matches Reading::Got(json, end) ==> i + size(json) <= end <= b.len(),
    decreases depth, 0nat, 0nat,
{
    if i < b.len() {
        lemma_skip_space(b, i + 1);
        lemma_string_end(b, i + 1, Seq::empty());
        lemma_number_end(b, i);
        assert(items_size(Seq::empty()) == 0);
        assert(members_size(Seq::empty()) == 0);
        if depth > 0 {
            lemma_members_size(b, skip_space(b, i + 1), (depth - 1) as nat, Seq::empty());
            lemma_items_size(b, skip_space(b, i + 1), (depth - 1) as nat, Seq::empty());
        }
    }
}

proof fn lemma_members_size(b: Seq<u8>, i: nat, depth: nat, done: Seq<(Seq<char>, Json)>)
    ensures
        members_at(b, i, depth, done) matches Reading::Got(json, end) ==> json is Object && i
            + members_size(json->Object_0) <= end + members_size(done) && end <= b.len(),
    decreases depth, 1nat, b.len() - i,
{
    if i < b.len() && b[i as int] == 0x22 {
        lemma_string_end(b, i + 1, Seq::empty());
        match string_at(b, i + 1, Seq::empty()) {
            Reading::Bad(_, _) => {},
            Reading::Got(key, key_end) => {
                let colon = skip_space(b, key_end);
                lemma_skip_space(b, key_end);
                lemma_skip_space(b, colon + 1);
                lemma_value_size(b, skip_space(b, colon + 1), depth);
                match value_at(b, skip_space(b, colon + 1), depth) {
                    Reading::Bad(_, _) => {},
                    Reading::Got(v, end) => {
                        let next = skip_space(b, end);
                        lemma_skip_space(b, end);
                        let so_far = done.push((key, v));
                        assert(so_far.drop_last() =~= done);
                        if next < b.len() && b[next as int] == 0x2C && i <= next {
                            lemma_skip_space(b, next + 1);
                            lemma_members_size(b, skip_space(b, next + 1), depth, so_far);
                        }
                    },
                }
            },
        }
    }
}

proof fn lemma_items_size(b: Seq<u8>, i: nat, depth: nat, done: Seq<Json>)
    ensures
        items_at(b, i, depth, done) matches Reading::Got(json, end) ==> json is Array && i
            + items_size(json->Array_0) <= end + items_size(done) && end <= b.len(),
    decreases depth, 1nat, b.len() - i,
{
    lemma_value_size(b, i, depth);
    match value_at(b, i, depth) {
        Reading::Bad(_, _) => {},
        Reading::Got(v, end) => {
            let next = skip_space(b, end);
            lemma_skip_space(b, end);
            let so_far = done.push(v);
            assert(so_far.drop_last() =~= done);
            if next < b.len() && b[next as int] == 0x2C && i <= next {
                lemma_skip_space(b, next + 1);
                lemma_items_size(b, skip_space(b, next + 1), depth, so_far);
            }
        },
    }
}

/// A text holds no more values than bytes.
pub proof fn law_no_more_values_than_bytes(b: Seq<u8>)
    ensures
        text_value(b) matches Reading::Got(json, _) ==> 1 <= size(json) <= b.len(),
{
    lemma_skip_space(b, 0);
    lemma_value_size(b, skip_space(b, 0), MAX_DEPTH as nat);
}

/// Every kind of error has its own reason.
pub proof fn law_errors_have_reasons(kind: ErrorKind)
    ensures
        describe(kind) == match kind {
            ErrorKind::UnexpectedEnd => "unexpected end of input"@,
            ErrorKind::ExpectedValue => "expected a value"@,
            ErrorKind::ExpectedKey => "expected a quoted object key"@,
            ErrorKind::ExpectedColon => "expected ':' after an object key"@,
            ErrorKind::ExpectedCommaOrBrace => "expected ',' or '}'"@,
            ErrorKind::ExpectedCommaOrBracket => "expected ',' or ']'"@,
            ErrorKind::ExpectedDigit => "expected a digit"@,
            ErrorKind::ControlCharacter => "unescaped control character in string"@,
            ErrorKind::InvalidEscape => "invalid escape sequence"@,
            ErrorKind::UnpairedSurrogate => "unpaired surrogate in string"@,
            ErrorKind::TooDeep => "nesting is too deep"@,
            ErrorKind::TrailingCharacters => "unexpected characters after the value"@,
        },
{
}

} // verus!
