//! Where reading a text stops: what stands at the place of an error.

use crate::json::grammar::{
    at, digits_at, escape_at, exponent_part, fraction_part, hex_value, integer_part, is_space,
    items_at, lemma_skip_space, lemma_string_end, lemma_value_size, members_at, number_at,
    skip_space, string_at, text_value, value_at, word_at, ErrorKind, Reading, MAX_DEPTH,
};
use crate::json::spelling::{
    are_hex, law_every_spelling_is_read, lemma_skipped_spaces, lemma_value_spelled, unit_of,
};
use crate::json::value::Json;
use crate::number::is_digit;
use crate::text::is_cut;
use vstd::prelude::*;
use vstd::utf8::{valid_first_scalar, valid_utf8};

verus! {

/// The four bytes from `p` on are hexadecimal digits.
pub open spec fn hex_at(b: Seq<u8>, p: int) -> bool {
    p + 4 <= b.len() && are_hex(b.subrange(p, p + 4))
}

/// A `\u` with four hexadecimal digits stands at `p`, for a code unit between two
/// others.
pub open spec fn code_at(b: Seq<u8>, p: int, low: int, high: int) -> bool {
    &&& p + 6 <= b.len()
    &&& b[p] == 0x5C
    &&& b[p + 1] == 0x75
    &&& hex_at(b, p + 2)
    &&& low <= unit_of(b.subrange(p + 2, p + 6)) <= high
}

/// Nothing but whitespace lies between `p` and one of two bytes before it.
pub open spec fn comes_after(b: Seq<u8>, p: int, one: u8, other: u8) -> bool {
    exists|q: int|
        0 <= q < p && (#[trigger] b[q] == one || b[q] == other) && forall|k: int|
            q < k < p ==> is_space(#[trigger] b[k])
}

/// The kind of an error says what is wrong with what stands at its place, which is
/// no whitespace but in a string.
pub open spec fn stands_wrong(b: Seq<u8>, kind: ErrorKind, p: int) -> bool {
    match kind {
        ErrorKind::UnexpectedEnd => p >= b.len(),
        ErrorKind::ExpectedValue => {
            &&& 0 <= p < b.len()
            &&& !is_space(b[p])
            &&& b[p] != 0x22 && b[p] != 0x7B && b[p] != 0x5B && b[p] != 0x2D
            &&& !(0x30 <= b[p] <= 0x39)
            &&& !(p + 4 <= b.len() && b.subrange(p, p + 4) == seq![0x74u8, 0x72, 0x75, 0x65])
            &&& !(p + 4 <= b.len() && b.subrange(p, p + 4) == seq![0x6Eu8, 0x75, 0x6C, 0x6C])
            &&& !(p + 5 <= b.len() && b.subrange(p, p + 5) == seq![0x66u8, 0x61, 0x6C, 0x73, 0x65])
        },
        ErrorKind::ExpectedKey => 0 <= p < b.len() && !is_space(b[p]) && b[p] != 0x22
            && comes_after(b, p, 0x7B, 0x2C),
        ErrorKind::ExpectedColon => 0 <= p < b.len() && !is_space(b[p]) && b[p] != 0x3A
            && comes_after(b, p, 0x22, 0x22),
        ErrorKind::ExpectedCommaOrBrace => 0 <= p < b.len() && !is_space(b[p]) && b[p] != 0x2C
            && b[p] != 0x7D,
        ErrorKind::ExpectedCommaOrBracket => 0 <= p < b.len() && !is_space(b[p]) && b[p] != 0x2C
            && b[p] != 0x5D,
        ErrorKind::ExpectedDigit => 0 < p < b.len() && !(0x30 <= b[p] <= 0x39) && (b[p - 1] == 0x2D
            || b[p - 1] == 0x2B || b[p - 1] == 0x2E || b[p - 1] == 0x65 || b[p - 1] == 0x45),
        ErrorKind::ControlCharacter => 0 <= p < b.len() && b[p] < 0x20,
        ErrorKind::InvalidEscape => {
            &&& 0 <= p && p + 1 < b.len()
            &&& b[p] == 0x5C
            &&& b[p + 1] != 0x22 && b[p + 1] != 0x5C && b[p + 1] != 0x2F && b[p + 1] != 0x62
            &&& b[p + 1] != 0x66 && b[p + 1] != 0x6E && b[p + 1] != 0x72 && b[p + 1] != 0x74
            &&& b[p + 1] == 0x75 ==> !hex_at(b, p + 2)
        },
        ErrorKind::UnpairedSurrogate => {
            &&& 0 <= p
            &&& code_at(b, p, 0xD800, 0xDFFF)
            &&& code_at(b, p, 0xD800, 0xDBFF) ==> !code_at(b, p + 6, 0xDC00, 0xDFFF)
        },
        ErrorKind::TooDeep => 0 <= p < b.len() && (b[p] == 0x7B || b[p] == 0x5B),
        ErrorKind::TrailingCharacters => {
            &&& 0 <= p < b.len()
            &&& !is_space(b[p])
            &&& text_value(b.take(p)) is Got
        },
    }
}

/// A reading that fails does so where something is wrong.
spec fn fails_rightly<T>(b: Seq<u8>, reading: Reading<T>) -> bool {
    reading matches Reading::Bad(kind, p) ==> stands_wrong(b, kind, p as int)
        && !(kind is TrailingCharacters)
}

proof fn lemma_spaces_skipped(b: Seq<u8>, i: nat)
    ensures
        forall|k: int| i <= k < skip_space(b, i) ==> is_space(#[trigger] b[k]),
    decreases b.len() - i,
{
    if i < b.len() && is_space(b[i as int]) {
        lemma_spaces_skipped(b, i + 1);
    }
}

proof fn lemma_comes_after(b: Seq<u8>, i: nat, one: u8, other: u8)
    requires
        0 < i <= b.len(),
        b[i - 1] == one || b[i - 1] == other,
    ensures
        comes_after(b, skip_space(b, i) as int, one, other),
{
    lemma_skip_space(b, i);
    lemma_spaces_skipped(b, i);
    assert(b[i - 1] == one || b[i - 1] == other);
}

proof fn lemma_digits_fail_rightly(b: Seq<u8>, i: nat)
    requires
        i > 0,
        i <= b.len() ==> b[i - 1] == 0x2D || b[i - 1] == 0x2B || b[i - 1] == 0x2E || b[i - 1] == 0x65
            || b[i - 1] == 0x45,
    ensures
        fails_rightly(b, digits_at(b, i)),
{
}

proof fn lemma_number_fails_rightly(b: Seq<u8>, i: nat)
    requires
        i < b.len(),
        b[i as int] == 0x2D || is_digit(b[i as int]),
    ensures
        fails_rightly(b, number_at(b, i)),
{
    let first = if at(b, i, 0x2D) {
        i + 1
    } else {
        i
    };
    if at(b, i, 0x2D) {
        lemma_digits_fail_rightly(b, first);
    }
    match integer_part(b, first) {
        Reading::Bad(_, _) => {},
        Reading::Got(_, int_end) => {
            if at(b, int_end, 0x2E) {
                lemma_digits_fail_rightly(b, int_end + 1);
            }
            match fraction_part(b, int_end) {
                Reading::Bad(_, _) => {},
                Reading::Got(_, frac_end) => {
                    if at(b, frac_end, 0x65) || at(b, frac_end, 0x45) {
                        lemma_digits_fail_rightly(b, frac_end + 1);
                        if at(b, frac_end + 1, 0x2B) || at(b, frac_end + 1, 0x2D) {
                            lemma_digits_fail_rightly(b, frac_end + 2);
                        }
                    }
                    assert(fails_rightly(b, exponent_part(b, frac_end)));
                },
            }
        },
    }
}

proof fn lemma_hex(b: Seq<u8>, p: nat)
    ensures
        hex_value(b, p, 4) is Some <==> hex_at(b, p as int),
        hex_value(b, p, 4) matches Some(n) ==> n == unit_of(b.subrange(p as int, p as int + 4)),
{
    reveal_with_fuel(hex_value, 5);
    let q = p as int;
    if q + 4 <= b.len() {
        let h = b.subrange(q, q + 4);
        assert(h[0] == b[q] && h[1] == b[q + 1] && h[2] == b[q + 2] && h[3] == b[q + 3]);
    }
}

proof fn lemma_escape_fails_rightly(b: Seq<u8>, i: nat)
    requires
        at(b, i, 0x5C),
    ensures
        fails_rightly(b, escape_at(b, i)),
{
    lemma_hex(b, i + 2);
    lemma_hex(b, i + 8);
}

proof fn lemma_string_fails_rightly(b: Seq<u8>, i: nat, done: Seq<char>)
    ensures
        fails_rightly(b, string_at(b, i, done)),
        string_at(b, i, done) matches Reading::Got(_, end) ==> 0 < end <= b.len() && b[end - 1]
            == 0x22,
    decreases
            if i < b.len() {
                b.len() - i
            } else {
                0
            },
{
    if i < b.len() && b[i as int] != 0x22 {
        if b[i as int] == 0x5C {
            lemma_escape_fails_rightly(b, i);
            match escape_at(b, i) {
                Reading::Bad(_, _) => {},
                Reading::Got(c, next) => {
                    lemma_string_fails_rightly(b, next, done.push(c));
                },
            }
        } else if b[i as int] >= 0x20 {
            let rest = b.skip(i as int);
            lemma_string_fails_rightly(
                b,
                (i + vstd::utf8::length_of_first_scalar(rest)) as nat,
                done.push(vstd::utf8::decode_first_scalar(rest) as char),
            );
        }
    }
}

proof fn lemma_value_fails_rightly(b: Seq<u8>, i: nat, depth: nat)
    requires
        i < b.len() ==> !is_space(b[i as int]),
    ensures
        fails_rightly(b, value_at(b, i, depth)),
    decreases depth, 0nat, 0nat,
{
    if i < b.len() {
        let first = b[i as int];
        lemma_skip_space(b, i + 1);
        let next = skip_space(b, i + 1);
        if first == 0x22 {
            lemma_string_fails_rightly(b, i + 1, Seq::empty());
        } else if first == 0x7B {
            if depth > 0 {
                lemma_comes_after(b, i + 1, 0x7B, 0x2C);
                lemma_members_fail_rightly(b, next, (depth - 1) as nat, Seq::empty());
            }
        } else if first == 0x5B {
            if depth > 0 {
                lemma_items_fail_rightly(b, next, (depth - 1) as nat, Seq::empty());
            }
        } else if first == 0x2D || is_digit(first) {
            lemma_number_fails_rightly(b, i);
        } else {
            assert(value_at(b, i, depth) matches Reading::Bad(kind, p) ==> kind is ExpectedValue && p
                == i && !word_at(b, i, seq![0x74, 0x72, 0x75, 0x65]) && !word_at(
                b,
                i,
                seq![0x66, 0x61, 0x6C, 0x73, 0x65],
            ) && !word_at(b, i, seq![0x6E, 0x75, 0x6C, 0x6C]));
        }
    }
}

proof fn lemma_members_fail_rightly(
    b: Seq<u8>,
    i: nat,
    depth: nat,
    done: Seq<(Seq<char>, Json)>,
)
    requires
        i < b.len() ==> !is_space(b[i as int]),
        i < b.len() ==> comes_after(b, i as int, 0x7B, 0x2C),
    ensures
        fails_rightly(b, members_at(b, i, depth, done)),
    decreases depth, 1nat, b.len() - i,
{
    if i < b.len() && b[i as int] == 0x22 {
        lemma_string_fails_rightly(b, i + 1, Seq::empty());
        match string_at(b, i + 1, Seq::empty()) {
            Reading::Bad(_, _) => {},
            Reading::Got(key, key_end) => {
                let colon = skip_space(b, key_end);
                lemma_skip_space(b, key_end);
                lemma_comes_after(b, key_end, 0x22, 0x22);
                lemma_skip_space(b, colon + 1);
                if colon < b.len() && b[colon as int] == 0x3A {
                    lemma_value_fails_rightly(b, skip_space(b, colon + 1), depth);
                    match value_at(b, skip_space(b, colon + 1), depth) {
                        Reading::Bad(_, _) => {},
                        Reading::Got(v, end) => {
                            let next = skip_space(b, end);
                            lemma_skip_space(b, end);
                            lemma_value_size(b, skip_space(b, colon + 1), depth);
                            lemma_string_end(b, i + 1, Seq::empty());
                            if next < b.len() && b[next as int] == 0x2C {
                                lemma_skip_space(b, next + 1);
                                lemma_comes_after(b, next + 1, 0x7B, 0x2C);
                                lemma_members_fail_rightly(
                                    b,
                                    skip_space(b, next + 1),
                                    depth,
                                    done.push((key, v)),
                                );
                            }
                        },
                    }
                }
            },
        }
    }
}

proof fn lemma_items_fail_rightly(b: Seq<u8>, i: nat, depth: nat, done: Seq<Json>)
    requires
        i < b.len() ==> !is_space(b[i as int]),
    ensures
        fails_rightly(b, items_at(b, i, depth, done)),
    decreases depth, 1nat, b.len() - i,
{
    lemma_value_fails_rightly(b, i, depth);
    match value_at(b, i, depth) {
        Reading::Bad(_, _) => {},
        Reading::Got(v, end) => {
            let next = skip_space(b, end);
            lemma_skip_space(b, end);
            lemma_value_size(b, i, depth);
            if next < b.len() && b[next as int] == 0x2C {
                lemma_skip_space(b, next + 1);
                lemma_items_fail_rightly(b, skip_space(b, next + 1), depth, done.push(v));
            }
        },
    }
}

/// A text that is rejected is rejected for what stands at the place of its error: a
/// text that ends early at its end, a value, key, colon, comma or digit that is
/// missing where something else stands, and what follows a whole value right after
/// it.
pub proof fn law_errors_are_where_something_is_wrong(b: Seq<u8>)
    requires
        valid_utf8(b),
    ensures
        text_value(b) matches Reading::Bad(kind, p) ==> stands_wrong(b, kind, p as int),
{
    let from = skip_space(b, 0);
    lemma_skip_space(b, 0);
    lemma_spaces_skipped(b, 0);
    lemma_value_fails_rightly(b, from, MAX_DEPTH as nat);
    match value_at(b, from, MAX_DEPTH as nat) {
        Reading::Bad(_, _) => {},
        Reading::Got(json, end) => {
            let next = skip_space(b, end);
            lemma_skip_space(b, end);
            lemma_spaces_skipped(b, end);
            if next < b.len() {
                if b.len() > 0 {
                    assert(valid_first_scalar(b));
                    assert(!vstd::utf8::is_continuation_byte(b[0]));
                }
                assert(is_cut(b, from as int)) by {
                    if from > 0 {
                        assert(is_space(b[from - 1]));
                        lemma_skipped_spaces(b, 0);
                    }
                }
                let s = lemma_value_spelled(b, from, MAX_DEPTH as nat, json, end);
                let before = b.subrange(0, from as int);
                let then = b.subrange(end as int, next as int);
                law_every_spelling_is_read(before, s, then);
                assert(b.take(next as int) =~= before + b.subrange(from as int, end as int) + then);
            }
        },
    }
}

} // verus!
