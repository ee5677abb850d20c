//! What is written is read back: the grammar takes every encoding to the value
//! that it encodes.

use crate::json::grammar::{
    at, digits_at, digits_end, escape_at, exponent_part, fraction_part, hex_digit, hex_value,
    integer_part, is_space, items_at, lemma_digits_end, lemma_skip_space, members_at, number_at,
    number_value, skip_space, string_at, text_value, unit_at, value_at, word_at, Reading, MAX_DEPTH,
};
use crate::json::render::{
    encoding, escaped, escapes, hex_char, items_encoding, members_encoding, quoted,
};
use crate::json::value::Json;
use crate::number::{
    all_digits, decimal, digit_char, is_digit, law_numbers_read_back, lemma_decimal,
    lemma_digits_value_shifts, signed_decimal, spelled,
};
use crate::text::{lemma_encode_ascii, lemma_encode_concat, lemma_multibyte};
use vstd::prelude::*;
use vstd::utf8::{
    decode_first_scalar, decode_utf8, encode_scalar, encode_utf8, is_ascii_chars, pop_first_scalar,
    valid_first_scalar, valid_utf8,
};

verus! {

/// The spelling of a number that is no 64-bit integer.
pub open spec fn is_float_spelling(s: Seq<char>) -> bool {
    number_at(encode_utf8(s), 0) == Reading::Got(Json::Float(s), encode_utf8(s).len())
}

/// A value that can be written down: its integers fit 64 bits, its other
/// numbers are spelled as such, and it is nested at most `depth` levels deep.
pub open spec fn writable(json: Json, depth: nat) -> bool
    decreases depth,
{
    match json {
        Json::Int(n) => i64::MIN <= n <= i64::MAX,
        Json::Float(s) => is_float_spelling(s),
        Json::Array(items) => depth > 0 && forall|i: int|
            0 <= i < items.len() ==> writable(#[trigger] items[i], (depth - 1) as nat),
        Json::Object(members) => depth > 0 && forall|i: int|
            0 <= i < members.len() ==> writable((#[trigger] members[i]).1, (depth - 1) as nat),
        _ => true,
    }
}

/// The text from position `i` on.
spec fn reads(b: Seq<u8>, i: nat, t: Seq<char>) -> bool {
    i <= b.len() && b.skip(i as int) == encode_utf8(t)
}

/// A text after which a value ends: there is none, or it starts with a comma or
/// a closing bracket.
spec fn ends(t: Seq<char>) -> bool {
    t.len() == 0 || t[0] == ',' || t[0] == ']' || t[0] == '}'
}

proof fn lemma_advance(b: Seq<u8>, i: nat, s: Seq<char>, u: Seq<char>) -> (j: nat)
    requires
        reads(b, i, s + u),
    ensures
        j == i + encode_utf8(s).len(),
        reads(b, j, u),
        b.subrange(i as int, j as int) == encode_utf8(s),
{
    lemma_encode_concat(s, u);
    let n = encode_utf8(s).len();
    let rest = b.skip(i as int);
    let j = (i + n) as nat;
    assert(rest.len() == n + encode_utf8(u).len());
    assert(b.skip(j as int) =~= encode_utf8(u)) by {
        assert(b.skip(j as int) =~= rest.skip(n as int));
        assert((encode_utf8(s) + encode_utf8(u)).skip(n as int) =~= encode_utf8(u));
    }
    assert(b.subrange(i as int, j as int) =~= encode_utf8(s)) by {
        assert(b.subrange(i as int, j as int) =~= rest.take(n as int));
        assert((encode_utf8(s) + encode_utf8(u)).take(n as int) =~= encode_utf8(s));
    }
    j
}

/// An ASCII character takes one byte.
proof fn lemma_ascii_first(b: Seq<u8>, i: nat, t: Seq<char>)
    requires
        reads(b, i, t),
        t.len() > 0,
        (t[0] as u32) < 0x80,
    ensures
        i < b.len(),
        b[i as int] == t[0] as u8,
        reads(b, i + 1, t.skip(1)),
{
    let s = seq![t[0]];
    assert(t =~= s + t.skip(1));
    lemma_encode_ascii(t[0]);
    let j = lemma_advance(b, i, s, t.skip(1));
    assert(b.subrange(i as int, j as int)[0] == b[i as int]);
}

/// The text after everything is the end of the bytes.
proof fn lemma_at_end(b: Seq<u8>, i: nat, t: Seq<char>)
    requires
        reads(b, i, t),
    ensures
        t.len() == 0 <==> i == b.len(),
{
    if t.len() == 0 {
        assert(encode_utf8(t) =~= Seq::empty());
        assert(b.skip(i as int).len() == 0);
    } else {
        vstd::utf8::encode_utf8_first_scalar(t);
        assert(encode_utf8(t).len() > 0);
    }
}

/// The byte at which a value ends.
proof fn lemma_end_byte(b: Seq<u8>, i: nat, t: Seq<char>)
    requires
        reads(b, i, t),
        ends(t),
    ensures
        i < b.len() ==> (b[i as int] == 0x2C || b[i as int] == 0x5D || b[i as int] == 0x7D),
        skip_space(b, i) == i,
{
    lemma_at_end(b, i, t);
    if t.len() > 0 {
        lemma_ascii_first(b, i, t);
    }
}

proof fn lemma_escapes_front(s: Seq<char>)
    requires
        s.len() > 0,
    ensures
        escapes(s) == escaped(s[0]) + escapes(s.skip(1)),
    decreases s.len(),
{
    let rest = s.skip(1);
    if s.len() == 1 {
        assert(s.drop_last() =~= Seq::empty());
        assert(rest =~= Seq::empty());
        assert(escapes(s) =~= escaped(s[0]) + escapes(rest));
    } else {
        lemma_escapes_front(s.drop_last());
        assert(s.drop_last().skip(1) =~= rest.drop_last());
        assert(escapes(s) =~= escaped(s[0]) + escapes(rest));
    }
}

/// The escape sequence of a control character gives its code.
proof fn lemma_unit_reads(b: Seq<u8>, i: nat, c: char, u: Seq<char>)
    requires
        (c as u32) < 0x20,
        reads(
            b,
            i,
            seq![
                '\\',
                'u',
                '0',
                '0',
                hex_char((c as u32 / 16) as nat),
                hex_char((c as u32 % 16) as nat),
            ] + u,
        ),
    ensures
        unit_at(b, i) == Some(c as u32 as nat),
        reads(b, i + 6, u),
{
    let high = (c as u32 / 16) as nat;
    let low = (c as u32 % 16) as nat;
    let t = seq!['\\', 'u', '0', '0', hex_char(high), hex_char(low)] + u;
    lemma_ascii_first(b, i, t);
    let t1 = t.skip(1);
    lemma_ascii_first(b, i + 1, t1);
    let t2 = t1.skip(1);
    lemma_ascii_first(b, i + 2, t2);
    let t3 = t2.skip(1);
    lemma_ascii_first(b, i + 3, t3);
    let t4 = t3.skip(1);
    lemma_ascii_first(b, i + 4, t4);
    let t5 = t4.skip(1);
    lemma_ascii_first(b, i + 5, t5);
    assert(t5.skip(1) =~= u);
    assert(hex_digit(b[i as int + 2]) == Some(0nat));
    assert(hex_digit(b[i as int + 3]) == Some(0nat));
    assert(hex_digit(b[i as int + 4]) == Some(high));
    assert(hex_digit(b[i as int + 5]) == Some(low));
    let k = i + 2;
    assert(hex_value(b, k, 0) == Some(0nat));
    assert(hex_value(b, k, 1) == Some(0nat));
    assert(hex_value(b, k, 2) == Some(0nat));
    assert(hex_value(b, k, 3) == Some(high));
    assert(hex_value(b, k, 4) == Some(high * 16 + low));
}

/// A string's characters are read back, up to its closing quote.
proof fn lemma_string_reads(b: Seq<u8>, i: nat, s: Seq<char>, u: Seq<char>, done: Seq<char>)
    requires
        reads(b, i, escapes(s) + (seq!['"'] + u)),
    ensures
        string_at(b, i, done) == Reading::Got(
            done + s,
            (i + encode_utf8(escapes(s)).len() + 1) as nat,
        ),
        reads(b, (i + encode_utf8(escapes(s)).len() + 1) as nat, u),
    decreases s.len(),
{
    let tail = seq!['"'] + u;
    if s.len() == 0 {
        assert(escapes(s) + tail =~= tail);
        assert(encode_utf8(escapes(s)) =~= Seq::empty());
        lemma_ascii_first(b, i, tail);
        assert(tail.skip(1) =~= u);
        assert(done + s =~= done);
    } else {
        let c = s[0];
        let rest = s.skip(1);
        let more = escapes(rest) + tail;
        lemma_escapes_front(s);
        lemma_encode_concat(escaped(c), escapes(rest));
        assert(escapes(s) + tail =~= escaped(c) + more);
        let next = lemma_advance(b, i, escaped(c), more);
        let t = escaped(c) + more;
        assert(done.push(c) + rest =~= done + s);
        lemma_string_reads(b, next, rest, u, done.push(c));
        if escaped(c) == seq![c] {
            let here = b.skip(i as int);
            vstd::utf8::encode_utf8_first_scalar(t);
            vstd::utf8::char_u32_cast(c, decode_first_scalar(here));
            assert(seq![c].drop_first() =~= Seq::empty());
            assert(encode_utf8(seq![c].drop_first()) =~= Seq::empty());
            assert(encode_utf8(seq![c]) =~= encode_scalar(c as u32));
            assert(here[0] == b[i as int]);
            if (c as u32) < 0x80 {
                lemma_ascii_first(b, i, t);
            } else {
                vstd::utf8::char_is_scalar(c);
                lemma_multibyte(c as u32);
                assert(encode_scalar(c as u32)[0] == here[0]);
            }
        } else {
            lemma_ascii_first(b, i, t);
            let t1 = t.skip(1);
            lemma_ascii_first(b, i + 1, t1);
            if escaped(c).len() == 2 {
                lemma_encode_two(escaped(c));
            } else {
                assert(t =~= seq![
                    '\\',
                    'u',
                    '0',
                    '0',
                    hex_char((c as u32 / 16) as nat),
                    hex_char((c as u32 % 16) as nat),
                ] + more);
                lemma_unit_reads(b, i, c, more);
                assert(is_ascii_chars(escaped(c)));
                vstd::utf8::is_ascii_chars_encode_utf8(escaped(c));
                lemma_code_of(c);
            }
            assert(escape_at(b, i) == Reading::Got(c, next));
        }
    }
}

/// A character is the one with its code.
proof fn lemma_code_of(c: char)
    ensures
        (c as u32 as nat) as char == c,
{
    let code: u32 = c as u32;
    let n: nat = code as nat;
    assert(n == code);
    vstd::utf8::char_u32_cast(c, code);
}

/// Two ASCII characters take two bytes.
proof fn lemma_encode_two(s: Seq<char>)
    requires
        s.len() == 2,
        is_ascii_chars(s),
    ensures
        encode_utf8(s).len() == 2,
{
    vstd::utf8::is_ascii_chars_encode_utf8(s);
}

/// A byte that could continue a number.
pub(crate) open spec fn in_number(byte: u8) -> bool {
    is_digit(byte) || byte == 0x2E || byte == 0x65 || byte == 0x45
}

/// `n` stands at `i`, and what follows it does not continue a number.
pub(crate) open spec fn set_off(b: Seq<u8>, i: nat, n: Seq<u8>) -> bool {
    &&& i + n.len() <= b.len()
    &&& forall|k: int| 0 <= k < n.len() ==> b[i + k] == #[trigger] n[k]
    &&& i + n.len() < b.len() ==> !in_number(b[(i + n.len()) as int])
}

proof fn lemma_digits_end_moves(b: Seq<u8>, i: nat, n: Seq<u8>, k: nat)
    requires
        set_off(b, i, n),
        k <= n.len(),
    ensures
        digits_end(b, i + k) == i + digits_end(n, k),
        k <= digits_end(n, k) <= n.len(),
    decreases n.len() - k,
{
    if k < n.len() {
        assert(b[i as int + k] == n[k as int]);
        if is_digit(n[k as int]) {
            lemma_digits_end_moves(b, i, n, k + 1);
        }
    }
}

/// A number that stands apart is read the same wherever it stands.
pub(crate) proof fn lemma_number_moves(b: Seq<u8>, i: nat, n: Seq<u8>, json: Json)
    requires
        set_off(b, i, n),
        number_at(n, 0) == Reading::Got(json, n.len()),
    ensures
        number_at(b, i) == Reading::Got(json, i + n.len()),
{
    let len = n.len();
    if len > 0 {
        assert(b[i as int + 0] == n[0]);
    }
    let first: nat = if at(n, 0, 0x2D) {
        1
    } else {
        0
    };
    lemma_digits_at_moves(b, i, n, first);
    match integer_part(n, first) {
        Reading::Bad(_, _) => {},
        Reading::Got(_, int_end) => {
            lemma_part_bounds(n, first);
            assert(integer_part(b, i + first) == Reading::Got((), i + int_end)) by {
                if first < len {
                    assert(b[i as int + first] == n[first as int]);
                }
            }
            if int_end < len {
                assert(b[i as int + int_end] == n[int_end as int]);
            }
            lemma_digits_at_moves(b, i, n, int_end + 1);
            match fraction_part(n, int_end) {
                Reading::Bad(_, _) => {},
                Reading::Got(_, frac_end) => {
                    lemma_part_bounds(n, int_end + 1);
                    assert(fraction_part(b, i + int_end) == Reading::Got((), i + frac_end));
                    if frac_end < len {
                        assert(b[i as int + frac_end] == n[frac_end as int]);
                    }
                    if frac_end + 1 < len {
                        assert(b[i as int + (frac_end + 1)] == n[frac_end as int + 1]);
                    }
                    lemma_digits_at_moves(b, i, n, frac_end + 1);
                    lemma_digits_at_moves(b, i, n, frac_end + 2);
                    assert(exponent_part(b, i + frac_end) == Reading::Got((), i + len));
                    assert forall|k: int| 0 <= k < int_end - first implies b[i + first + k]
                        == #[trigger] n[first + k] by {
                        assert(b[i + (first + k)] == n[first + k]);
                    }
                    lemma_digits_value_shifts(
                        b,
                        i + first,
                        n,
                        first,
                        (int_end - first) as nat,
                    );
                    assert(b.subrange(i as int, (i + len) as int) =~= n.subrange(0, len as int)) by {
                        assert forall|k: int| 0 <= k < len implies b.subrange(
                            i as int,
                            (i + len) as int,
                        )[k] == n.subrange(0, len as int)[k] by {
                            assert(b[i + k] == n[k]);
                        }
                    }
                },
            }
        },
    }
}

proof fn lemma_part_bounds(n: Seq<u8>, k: nat)
    ensures
        digits_at(n, k) matches Reading::Got(_, end) ==> k < end <= n.len(),
        integer_part(n, k) matches Reading::Got(_, end) ==> k < end <= n.len(),
{
    if k < n.len() {
        lemma_digits_end(n, k);
        lemma_digits_end(n, k + 1);
    }
}

proof fn lemma_digits_at_moves(b: Seq<u8>, i: nat, n: Seq<u8>, k: nat)
    requires
        set_off(b, i, n),
    ensures
        digits_at(n, k) matches Reading::Got(_, end) ==> digits_at(b, i + k) == Reading::Got(
            (),
            i + end,
        ),
{
    if k < n.len() {
        assert(b[i as int + k] == n[k as int]);
        lemma_digits_end_moves(b, i, n, k);
    }
}

/// Digits without leading zeros.
proof fn lemma_no_leading_zero(n: nat)
    ensures
        decimal(n).len() > 0,
        n > 0 ==> decimal(n)[0] != '0',
        n == 0 ==> decimal(n) == seq!['0'],
    decreases n,
{
    if n >= 10 {
        lemma_no_leading_zero(n / 10);
    } else {
        assert(digit_char(n) as u32 == 0x30 + n);
    }
}

proof fn lemma_digits_run(n: Seq<u8>, k: nat)
    requires
        k <= n.len(),
        forall|j: int| k <= j < n.len() ==> is_digit(#[trigger] n[j]),
    ensures
        digits_end(n, k) == n.len(),
    decreases n.len() - k,
{
    if k < n.len() {
        lemma_digits_run(n, k + 1);
    }
}

/// An integer is read back.
proof fn lemma_integer_reads(value: int)
    requires
        i64::MIN <= value <= i64::MAX,
    ensures
        number_at(encode_utf8(signed_decimal(value)), 0) == Reading::Got(
            Json::Int(value),
            encode_utf8(signed_decimal(value)).len(),
        ),
{
    let text = signed_decimal(value);
    let n = encode_utf8(text);
    let magnitude: nat = if value < 0 {
        (-value) as nat
    } else {
        value as nat
    };
    let digits = decimal(magnitude);
    law_numbers_read_back(value);
    lemma_decimal(magnitude);
    lemma_no_leading_zero(magnitude);
    assert(is_ascii_chars(text));
    vstd::utf8::is_ascii_chars_encode_utf8(text);
    let first: nat = if value < 0 {
        1
    } else {
        0
    };
    assert(text[first as int] == digits[0]);
    assert(text[first as int] as u8 == n[first as int]);
    assert(text[0] as u8 == n[0]);
    if value >= 0 {
        vstd::utf8::is_ascii_chars_encode_utf8(digits);
        assert(is_digit(n[0]));
    }
    assert(all_digits(n, first));
    lemma_digits_run(n, first);
    if n[first as int] == 0x30 {
        assert(digits[0] == '0');
        assert(digits.len() == 1);
    }
    assert(integer_part(n, first) == Reading::Got((), n.len()));
}

/// A number stands apart where a value ends.
proof fn lemma_number_reads(b: Seq<u8>, i: nat, s: Seq<char>, u: Seq<char>, json: Json)
    requires
        reads(b, i, s + u),
        ends(u),
        number_at(encode_utf8(s), 0) == Reading::Got(json, encode_utf8(s).len()),
    ensures
        number_at(b, i) == Reading::Got(json, (i + encode_utf8(s).len()) as nat),
{
    let n = encode_utf8(s);
    let j = lemma_advance(b, i, s, u);
    lemma_end_byte(b, j, u);
    assert forall|k: int| 0 <= k < n.len() implies b[i + k] == #[trigger] n[k] by {
        assert(b.subrange(i as int, j as int)[k] == b[i + k]);
    }
    lemma_number_moves(b, i, n, json);
}

/// A number starts with a minus sign or a digit.
proof fn lemma_number_start(n: Seq<u8>, json: Json, end: nat)
    requires
        number_at(n, 0) == Reading::Got(json, end),
    ensures
        n.len() > 0,
        n[0] == 0x2D || is_digit(n[0]),
{
}

/// The first byte of an encoding belongs to no other kind of token.
proof fn lemma_first_byte(json: Json, depth: nat)
    requires
        writable(json, depth),
    ensures
        encode_utf8(encoding(json)).len() > 0,
        !is_space(encode_utf8(encoding(json))[0]),
        encode_utf8(encoding(json))[0] != 0x5D,
        encode_utf8(encoding(json))[0] != 0x7D,
{
    let t = encoding(json);
    match json {
        Json::Int(n) => {
            lemma_integer_reads(n);
            lemma_number_start(encode_utf8(t), json, encode_utf8(t).len());
        },
        Json::Float(s) => {
            lemma_number_start(encode_utf8(t), json, encode_utf8(t).len());
        },
        _ => {
            let b = encode_utf8(t);
            assert(b.skip(0) =~= b);
            lemma_ascii_first(b, 0, t);
        },
    }
}

/// Where a value follows, there is no space to skip.
proof fn lemma_value_follows(b: Seq<u8>, i: nat, json: Json, depth: nat, u: Seq<char>)
    requires
        writable(json, depth),
        reads(b, i, encoding(json) + u),
    ensures
        i < b.len(),
        skip_space(b, i) == i,
        b[i as int] != 0x5D,
        b[i as int] != 0x7D,
{
    lemma_first_byte(json, depth);
    let j = lemma_advance(b, i, encoding(json), u);
    assert(b.subrange(i as int, j as int)[0] == b[i as int]);
}

proof fn lemma_items_front(items: Seq<Json>)
    requires
        items.len() > 1,
    ensures
        items_encoding(items) == encoding(items[0]) + (seq![','] + items_encoding(items.skip(1))),
    decreases items.len(),
{
    let rest = items.skip(1);
    if items.len() == 2 {
        assert(items.drop_last() =~= seq![items[0]]);
        assert(rest =~= seq![items[1]]);
        assert(items_encoding(items.drop_last()) == encoding(items[0]));
        assert(items_encoding(rest) == encoding(items[1]));
        assert(items_encoding(items) =~= encoding(items[0]) + (seq![','] + items_encoding(rest)));
    } else {
        lemma_items_front(items.drop_last());
        assert(items.drop_last().skip(1) =~= rest.drop_last());
        assert(rest.last() == items.last());
        assert(items_encoding(items) =~= encoding(items[0]) + (seq![','] + items_encoding(rest)));
    }
}

/// How a member is written.
spec fn member_encoding(m: (Seq<char>, Json)) -> Seq<char> {
    quoted(m.0) + seq![':'] + encoding(m.1)
}

proof fn lemma_members_front(members: Seq<(Seq<char>, Json)>)
    requires
        members.len() > 0,
    ensures
        members_encoding(members) == if members.len() == 1 {
            member_encoding(members[0])
        } else {
            member_encoding(members[0]) + (seq![','] + members_encoding(members.skip(1)))
        },
    decreases members.len(),
{
    let rest = members.skip(1);
    if members.len() == 2 {
        assert(members.drop_last() =~= seq![members[0]]);
        assert(rest =~= seq![members[1]]);
        assert(members_encoding(members.drop_last()) == member_encoding(members[0]));
        assert(members_encoding(rest) == member_encoding(members[1]));
        assert(members_encoding(members) =~= member_encoding(members[0]) + (seq![',']
            + members_encoding(rest)));
    } else if members.len() > 2 {
        lemma_members_front(members.drop_last());
        assert(members.drop_last().skip(1) =~= rest.drop_last());
        assert(rest.last() == members.last());
        assert(members_encoding(members) =~= member_encoding(members[0]) + (seq![',']
            + members_encoding(rest)));
    }
}

/// A word is read where it stands.
proof fn lemma_word_reads(b: Seq<u8>, i: nat, word: Seq<char>, u: Seq<char>, bytes: Seq<u8>)
    requires
        reads(b, i, word + u),
        is_ascii_chars(word),
        bytes.len() == word.len(),
        forall|k: int| 0 <= k < word.len() ==> #[trigger] word[k] as u8 == bytes[k],
    ensures
        word_at(b, i, bytes),
        encode_utf8(word).len() == word.len(),
{
    vstd::utf8::is_ascii_chars_encode_utf8(word);
    let j = lemma_advance(b, i, word, u);
    assert(encode_utf8(word) =~= bytes) by {
        assert forall|k: int| 0 <= k < word.len() implies encode_utf8(word)[k] == bytes[k] by {
            assert(word[k] as u8 == bytes[k]);
        }
    }
}

/// A value is read back.
#[verifier::spinoff_prover]
#[verifier::rlimit(40)]
proof fn lemma_value_reads(b: Seq<u8>, i: nat, json: Json, depth: nat, u: Seq<char>)
    requires
        writable(json, depth),
        reads(b, i, encoding(json) + u),
        ends(u),
    ensures
        value_at(b, i, depth) == Reading::Got(
            json,
            (i + encode_utf8(encoding(json)).len()) as nat,
        ),
    decreases depth, 1nat, 0nat,
{
    let t = encoding(json);
    let end = lemma_advance(b, i, t, u);
    match json {
        Json::Null => {
            lemma_ascii_first(b, i, t + u);
            lemma_word_reads(b, i, t, u, seq![0x6E, 0x75, 0x6C, 0x6C]);
            lemma_other_word(b, i, seq![0x74, 0x72, 0x75, 0x65]);
            lemma_other_word(b, i, seq![0x66, 0x61, 0x6C, 0x73, 0x65]);
        },
        Json::Bool(true) => {
            lemma_ascii_first(b, i, t + u);
            lemma_word_reads(b, i, t, u, seq![0x74, 0x72, 0x75, 0x65]);
        },
        Json::Bool(false) => {
            lemma_ascii_first(b, i, t + u);
            lemma_word_reads(b, i, t, u, seq![0x66, 0x61, 0x6C, 0x73, 0x65]);
            lemma_other_word(b, i, seq![0x74, 0x72, 0x75, 0x65]);
        },
        Json::Int(n) => {
            lemma_integer_reads(n);
            lemma_number_reads(b, i, t, u, json);
            lemma_number_start(encode_utf8(t), json, encode_utf8(t).len());
            assert(b.subrange(i as int, end as int)[0] == b[i as int]);
        },
        Json::Float(s) => {
            lemma_number_reads(b, i, t, u, json);
            lemma_number_start(encode_utf8(t), json, encode_utf8(t).len());
            assert(b.subrange(i as int, end as int)[0] == b[i as int]);
        },
        Json::Str(s) => {
            let after = escapes(s) + (seq!['"'] + u);
            assert(t + u =~= seq!['"'] + after);
            lemma_ascii_first(b, i, t + u);
            assert((t + u).skip(1) =~= after);
            lemma_string_reads(b, i + 1, s, u, Seq::empty());
            assert(Seq::<char>::empty() + s =~= s);
            lemma_quoted_len(s);
        },
        Json::Array(items) => {
            let inner = items_encoding(items) + (seq![']'] + u);
            assert(t + u =~= seq!['['] + inner);
            lemma_ascii_first(b, i, t + u);
            assert((t + u).skip(1) =~= inner);
            lemma_bracketed_len('[', items_encoding(items), ']');
            if items.len() == 0 {
                assert(inner =~= seq![']'] + u);
                lemma_ascii_first(b, i + 1, inner);
                assert(encode_utf8(items_encoding(items)) =~= Seq::empty());
                assert(items =~= Seq::empty());
            } else {
                lemma_items_start(b, i + 1, items, (depth - 1) as nat, seq![']'] + u);
                lemma_items_read(b, i + 1, items, (depth - 1) as nat, u, Seq::empty());
                assert(Seq::<Json>::empty() + items =~= items);
            }
        },
        Json::Object(members) => {
            let inner = members_encoding(members) + (seq!['}'] + u);
            assert(t + u =~= seq!['{'] + inner);
            lemma_ascii_first(b, i, t + u);
            assert((t + u).skip(1) =~= inner);
            lemma_bracketed_len('{', members_encoding(members), '}');
            if members.len() == 0 {
                assert(inner =~= seq!['}'] + u);
                lemma_ascii_first(b, i + 1, inner);
                assert(encode_utf8(members_encoding(members)) =~= Seq::empty());
                assert(members =~= Seq::empty());
            } else {
                lemma_members_start(b, i + 1, members, seq!['}'] + u);
                lemma_members_read(b, i + 1, members, (depth - 1) as nat, u, Seq::empty());
                assert(Seq::<(Seq<char>, Json)>::empty() + members =~= members);
            }
        },
    }
}

/// Another word does not stand where its first byte does not.
proof fn lemma_other_word(b: Seq<u8>, i: nat, word: Seq<u8>)
    requires
        i < b.len(),
        word.len() > 0,
        b[i as int] != word[0],
    ensures
        !word_at(b, i, word),
{
    if word_at(b, i, word) {
        assert(b.subrange(i as int, (i + word.len()) as int)[0] == b[i as int]);
    }
}

proof fn lemma_quoted_len(s: Seq<char>)
    ensures
        encode_utf8(quoted(s)).len() == encode_utf8(escapes(s)).len() + 2,
{
    lemma_bracketed_len('"', escapes(s), '"');
}

proof fn lemma_bracketed_len(open: char, inner: Seq<char>, close: char)
    requires
        (open as u32) < 0x80,
        (close as u32) < 0x80,
    ensures
        encode_utf8(seq![open] + inner + seq![close]).len() == encode_utf8(inner).len() + 2,
{
    lemma_encode_concat(seq![open], inner);
    lemma_encode_concat(seq![open] + inner, seq![close]);
    lemma_encode_ascii(open);
    lemma_encode_ascii(close);
}

/// Some elements start like their first.
proof fn lemma_items_start(b: Seq<u8>, i: nat, items: Seq<Json>, depth: nat, u: Seq<char>)
    requires
        items.len() > 0,
        forall|k: int| 0 <= k < items.len() ==> writable(#[trigger] items[k], depth),
        reads(b, i, items_encoding(items) + u),
    ensures
        i < b.len(),
        skip_space(b, i) == i,
        b[i as int] != 0x5D,
{
    assert(writable(items[0], depth));
    if items.len() == 1 {
        lemma_value_follows(b, i, items[0], depth, u);
    } else {
        lemma_items_front(items);
        let after = seq![','] + items_encoding(items.skip(1)) + u;
        assert(items_encoding(items) + u =~= encoding(items[0]) + after);
        lemma_value_follows(b, i, items[0], depth, after);
    }
}

/// Elements are read back, up to the closing bracket.
proof fn lemma_items_read(
    b: Seq<u8>,
    i: nat,
    items: Seq<Json>,
    depth: nat,
    u: Seq<char>,
    done: Seq<Json>,
)
    requires
        items.len() > 0,
        forall|k: int| 0 <= k < items.len() ==> writable(#[trigger] items[k], depth),
        reads(b, i, items_encoding(items) + (seq![']'] + u)),
    ensures
        items_at(b, i, depth, done) == Reading::Got(
            Json::Array(done + items),
            (i + encode_utf8(items_encoding(items)).len() + 1) as nat,
        ),
    decreases depth, 2nat, items.len(),
{
    let close = seq![']'] + u;
    let first = items[0];
    let head = encoding(first);
    assert(writable(items[0], depth));
    if items.len() == 1 {
        lemma_value_reads(b, i, first, depth, close);
        let j = lemma_advance(b, i, head, close);
        lemma_ascii_first(b, j, close);
        assert(done.push(first) =~= done + items);
    } else {
        let rest = items.skip(1);
        lemma_items_front(items);
        let after = seq![','] + (items_encoding(rest) + close);
        assert(items_encoding(items) + close =~= head + after);
        lemma_value_reads(b, i, first, depth, after);
        let j = lemma_advance(b, i, head, after);
        lemma_ascii_first(b, j, after);
        assert(after.skip(1) =~= items_encoding(rest) + close);
        assert forall|k: int| 0 <= k < rest.len() implies writable(#[trigger] rest[k], depth) by {
            assert(rest[k] == items[k + 1]);
        }
        lemma_items_start(b, j + 1, rest, depth, close);
        lemma_items_read(b, j + 1, rest, depth, u, done.push(first));
        assert(done.push(first) + rest =~= done + items);
        lemma_encode_concat(head, seq![','] + items_encoding(rest));
        lemma_encode_concat(seq![','], items_encoding(rest));
        lemma_encode_ascii(',');
    }
}

/// A member is read back: its key, up to the colon, and its value.
proof fn lemma_member_reads(
    b: Seq<u8>,
    i: nat,
    member: (Seq<char>, Json),
    depth: nat,
    after: Seq<char>,
) -> (places: (nat, nat))
    requires
        writable(member.1, depth),
        reads(b, i, member_encoding(member) + after),
        ends(after),
        after.len() > 0,
    ensures
        i < b.len(),
        b[i as int] == 0x22,
        string_at(b, i + 1, Seq::empty()) == Reading::Got(member.0, places.0),
        skip_space(b, places.0) == places.0,
        places.0 < b.len(),
        b[places.0 as int] == 0x3A,
        value_at(b, skip_space(b, places.0 + 1), depth) == Reading::Got(member.1, places.1),
        skip_space(b, places.1) == places.1,
        i <= places.1 < b.len(),
        b[places.1 as int] == after[0] as u8,
        reads(b, places.1 + 1, after.skip(1)),
        places.1 == i + encode_utf8(member_encoding(member)).len(),
    decreases depth, 2nat, 0nat,
{
    let (key, value) = member;
    let head = member_encoding(member);
    let body = seq![':'] + (encoding(value) + after);
    let inside = escapes(key) + (seq!['"'] + body);
    assert(head + after =~= seq!['"'] + inside);
    lemma_ascii_first(b, i, head + after);
    assert((head + after).skip(1) =~= inside);
    lemma_string_reads(b, i + 1, key, body, Seq::empty());
    assert(Seq::<char>::empty() + key =~= key);
    let colon = (i + 1 + encode_utf8(escapes(key)).len() + 1) as nat;
    lemma_ascii_first(b, colon, body);
    assert(body.skip(1) =~= encoding(value) + after);
    lemma_value_follows(b, colon + 1, value, depth, after);
    lemma_value_reads(b, colon + 1, value, depth, after);
    let j = lemma_advance(b, colon + 1, encoding(value), after);
    lemma_end_byte(b, j, after);
    lemma_ascii_first(b, j, after);
    lemma_quoted_len(key);
    lemma_encode_concat(quoted(key), seq![':']);
    lemma_encode_concat(quoted(key) + seq![':'], encoding(value));
    lemma_encode_ascii(':');
    (colon, j)
}

/// Members are read back, up to the closing brace.
proof fn lemma_members_read(
    b: Seq<u8>,
    i: nat,
    members: Seq<(Seq<char>, Json)>,
    depth: nat,
    u: Seq<char>,
    done: Seq<(Seq<char>, Json)>,
)
    requires
        members.len() > 0,
        forall|k: int| 0 <= k < members.len() ==> writable((#[trigger] members[k]).1, depth),
        reads(b, i, members_encoding(members) + (seq!['}'] + u)),
    ensures
        members_at(b, i, depth, done) == Reading::Got(
            Json::Object(done + members),
            (i + encode_utf8(members_encoding(members)).len() + 1) as nat,
        ),
    decreases depth, 3nat, members.len(),
{
    let close = seq!['}'] + u;
    let head = member_encoding(members[0]);
    assert(writable(members[0].1, depth));
    lemma_members_front(members);
    if members.len() == 1 {
        let (colon, j) = lemma_member_reads(b, i, members[0], depth, close);
        assert(done.push(members[0]) =~= done + members);
    } else {
        let rest = members.skip(1);
        let later = members_encoding(rest) + close;
        let after = seq![','] + later;
        assert(members_encoding(members) + close =~= head + after);
        let (colon, j) = lemma_member_reads(b, i, members[0], depth, after);
        assert(after.skip(1) =~= later);
        assert forall|k: int| 0 <= k < rest.len() implies writable(
            (#[trigger] rest[k]).1,
            depth,
        ) by {
            assert(rest[k] == members[k + 1]);
        }
        lemma_members_start(b, j + 1, rest, close);
        lemma_members_read(b, j + 1, rest, depth, u, done.push(members[0]));
        assert(done.push(members[0]) + rest =~= done + members);
        lemma_encode_concat(head, seq![','] + members_encoding(rest));
        lemma_encode_concat(seq![','], members_encoding(rest));
        lemma_encode_ascii(',');
    }
}

/// Some members start with a quote.
proof fn lemma_members_start(
    b: Seq<u8>,
    i: nat,
    members: Seq<(Seq<char>, Json)>,
    u: Seq<char>,
)
    requires
        members.len() > 0,
        reads(b, i, members_encoding(members) + u),
    ensures
        i < b.len(),
        b[i as int] == 0x22,
        skip_space(b, i) == i,
{
    lemma_members_front(members);
    let t = members_encoding(members) + u;
    assert(t[0] == '"');
    lemma_ascii_first(b, i, t);
}

/// Every value that can be written is read back from its encoding.
pub proof fn law_encodings_are_read_back(json: Json)
    requires
        writable(json, MAX_DEPTH as nat),
    ensures
        text_value(encode_utf8(encoding(json))) == Reading::Got(
            json,
            encode_utf8(encoding(json)).len(),
        ),
{
    let t = encoding(json);
    let b = encode_utf8(t);
    assert(b.skip(0) =~= b);
    assert(t + Seq::<char>::empty() =~= t);
    lemma_value_follows(b, 0, json, MAX_DEPTH as nat, Seq::empty());
    lemma_value_reads(b, 0, json, MAX_DEPTH as nat, Seq::empty());
    lemma_skip_space(b, b.len());
}

proof fn lemma_digits_end_alone(b: Seq<u8>, i: nat, end: nat, k: nat)
    requires
        i <= k <= end <= b.len(),
        digits_end(b, k) <= end,
    ensures
        digits_end(b.subrange(i as int, end as int), (k - i) as nat) == digits_end(b, k) - i,
        forall|j: int| k <= j < digits_end(b, k) ==> #[trigger] b[j] < 0x80,
    decreases end - k,
{
    let n = b.subrange(i as int, end as int);
    if k < b.len() && is_digit(b[k as int]) {
        lemma_digits_end(b, k + 1);
        lemma_digits_end_alone(b, i, end, k + 1);
        assert(n[k - i] == b[k as int]);
    } else if k < end {
        assert(n[k - i] == b[k as int]);
    }
}

proof fn lemma_integer_alone(b: Seq<u8>, i: nat, end: nat, first: nat, int_end: nat)
    requires
        i <= first < int_end <= end <= b.len(),
        integer_part(b, first) == Reading::Got((), int_end),
    ensures
        integer_part(b.subrange(i as int, end as int), (first - i) as nat) == Reading::Got(
            (),
            (int_end - i) as nat,
        ),
        forall|k: int| first <= k < int_end ==> #[trigger] b[k] < 0x80,
{
    let n = b.subrange(i as int, end as int);
    assert(n[first - i] == b[first as int]);
    if b[first as int] != 0x30 {
        lemma_digits_end_alone(b, i, end, first);
    }
}

proof fn lemma_fraction_alone(b: Seq<u8>, i: nat, end: nat, int_end: nat, frac_end: nat)
    requires
        i <= int_end <= frac_end <= end <= b.len(),
        fraction_part(b, int_end) == Reading::Got((), frac_end),
    ensures
        fraction_part(b.subrange(i as int, end as int), (int_end - i) as nat) == Reading::Got(
            (),
            (frac_end - i) as nat,
        ),
        forall|k: int| int_end <= k < frac_end ==> #[trigger] b[k] < 0x80,
{
    let n = b.subrange(i as int, end as int);
    lemma_part_bounds(b, int_end + 1);
    if int_end < end {
        assert(n[int_end - i] == b[int_end as int]);
    }
    if at(b, int_end, 0x2E) {
        lemma_digits_end_alone(b, i, end, int_end + 1);
        assert(n[int_end + 1 - i] == b[int_end as int + 1]);
    }
}

proof fn lemma_exponent_alone(b: Seq<u8>, i: nat, end: nat, frac_end: nat)
    requires
        i <= frac_end <= end <= b.len(),
        exponent_part(b, frac_end) == Reading::Got((), end),
    ensures
        exponent_part(b.subrange(i as int, end as int), (frac_end - i) as nat) == Reading::Got(
            (),
            (end - i) as nat,
        ),
        forall|k: int| frac_end <= k < end ==> #[trigger] b[k] < 0x80,
{
    let n = b.subrange(i as int, end as int);
    lemma_part_bounds(b, frac_end + 1);
    lemma_part_bounds(b, frac_end + 2);
    if frac_end < end {
        assert(n[frac_end - i] == b[frac_end as int]);
        assert(n[frac_end + 1 - i] == b[frac_end as int + 1]);
        if at(b, frac_end + 1, 0x2B) || at(b, frac_end + 1, 0x2D) {
            lemma_digits_end_alone(b, i, end, frac_end + 2);
            assert(n[frac_end + 2 - i] == b[frac_end as int + 2]);
        } else {
            lemma_digits_end_alone(b, i, end, frac_end + 1);
        }
    }
}

proof fn lemma_number_value_alone(b: Seq<u8>, i: nat, end: nat, int_end: nat)
    requires
        i < int_end <= end <= b.len(),
        at(b, i, 0x2D) ==> i + 1 < int_end,
    ensures
        number_value(b.subrange(i as int, end as int), 0, (int_end - i) as nat, (end - i) as nat)
            == number_value(b, i, int_end, end),
{
    let n = b.subrange(i as int, end as int);
    let len = (end - i) as nat;
    let first = if at(b, i, 0x2D) {
        i + 1
    } else {
        i
    };
    assert(n[0] == b[i as int]);
    assert forall|k: int| 0 <= k < int_end - first implies b[first + k] == #[trigger] n[(first - i)
        + k] by {
        assert(n[(first - i) + k] == b[i + ((first - i) + k)]);
    }
    lemma_digits_value_shifts(b, first, n, (first - i) as nat, (int_end - first) as nat);
    assert(n.subrange(0, len as int) =~= n);
}

/// A number is read the same when it stands alone, and it is ASCII.
proof fn lemma_number_alone(b: Seq<u8>, i: nat, json: Json, end: nat)
    requires
        number_at(b, i) == Reading::Got(json, end),
    ensures
        i < end <= b.len(),
        number_at(b.subrange(i as int, end as int), 0) == Reading::Got(json, (end - i) as nat),
        forall|k: int| i <= k < end ==> #[trigger] b[k] < 0x80,
{
    let first = if at(b, i, 0x2D) {
        i + 1
    } else {
        i
    };
    lemma_part_bounds(b, first);
    let int_end = integer_part(b, first)->Got_1;
    lemma_part_bounds(b, int_end + 1);
    let frac_end = fraction_part(b, int_end)->Got_1;
    lemma_part_bounds(b, frac_end + 1);
    lemma_part_bounds(b, frac_end + 2);
    assert(i <= first < int_end <= frac_end <= end <= b.len());
    lemma_integer_alone(b, i, end, first, int_end);
    lemma_fraction_alone(b, i, end, int_end, frac_end);
    lemma_exponent_alone(b, i, end, frac_end);
    lemma_number_value_alone(b, i, end, int_end);
    assert(b.subrange(i as int, end as int)[0] == b[i as int]);
    assert forall|k: int| i <= k < end implies #[trigger] b[k] < 0x80 by {
        if k == i && first == i + 1 {
            assert(b[k] == 0x2D);
        }
    }
}

/// A number that is no 64-bit integer is spelled as such.
proof fn lemma_number_writable(b: Seq<u8>, i: nat, json: Json, end: nat)
    requires
        number_at(b, i) == Reading::Got(json, end),
    ensures
        forall|depth: nat| #[trigger] writable(json, depth),
{
    lemma_number_alone(b, i, json, end);
    let n = b.subrange(i as int, end as int);
    match json {
        Json::Float(s) => {
            assert forall|k: int| 0 <= k < n.len() implies #[trigger] n[k] < 0x80 by {
                assert(n[k] == b[i + k]);
            }
            lemma_ascii_is_valid(n);
            vstd::utf8::decode_utf8_encode_utf8(n);
            assert(s == decode_utf8(n));
        },
        _ => {},
    }
}

/// ASCII bytes are text.
proof fn lemma_ascii_is_valid(n: Seq<u8>)
    requires
        forall|k: int| 0 <= k < n.len() ==> #[trigger] n[k] < 0x80,
    ensures
        valid_utf8(n),
    decreases n.len(),
{
    if n.len() > 0 {
        let byte = n[0];
        assert((byte & 0x7F) as u32 <= 0x7f) by (bit_vector);
        assert(valid_first_scalar(n));
        let rest = pop_first_scalar(n);
        assert(rest =~= n.skip(1));
        assert forall|k: int| 0 <= k < rest.len() implies #[trigger] rest[k] < 0x80 by {
            assert(rest[k] == n[k + 1]);
        }
        lemma_ascii_is_valid(rest);
    }
}

proof fn lemma_value_writable(b: Seq<u8>, i: nat, depth: nat)
    ensures
        value_at(b, i, depth) matches Reading::Got(json, _) ==> writable(json, depth),
    decreases depth, 0nat, 0nat,
{
    match value_at(b, i, depth) {
        Reading::Bad(_, _) => {},
        Reading::Got(json, end) => {
            if b[i as int] == 0x22 {
            } else if b[i as int] == 0x7B {
                let first = skip_space(b, i + 1);
                if !at(b, first, 0x7D) {
                    lemma_members_writable(b, first, (depth - 1) as nat, Seq::empty());
                }
            } else if b[i as int] == 0x5B {
                let first = skip_space(b, i + 1);
                if !at(b, first, 0x5D) {
                    lemma_items_writable(b, first, (depth - 1) as nat, Seq::empty());
                }
            } else if b[i as int] == 0x2D || is_digit(b[i as int]) {
                lemma_number_writable(b, i, json, end);
            }
        },
    }
}

proof fn lemma_members_writable(
    b: Seq<u8>,
    i: nat,
    depth: nat,
    done: Seq<(Seq<char>, Json)>,
)
    requires
        forall|k: int| 0 <= k < done.len() ==> writable((#[trigger] done[k]).1, depth),
    ensures
        members_at(b, i, depth, done) matches Reading::Got(json, _) ==> writable(json, depth + 1),
    decreases depth, 1nat, b.len() - i,
{
    if i < b.len() && b[i as int] == 0x22 {
        match string_at(b, i + 1, Seq::empty()) {
            Reading::Bad(_, _) => {},
            Reading::Got(key, key_end) => {
                let colon = skip_space(b, key_end);
                let from = skip_space(b, colon + 1);
                lemma_value_writable(b, from, depth);
                match value_at(b, from, depth) {
                    Reading::Bad(_, _) => {},
                    Reading::Got(v, end) => {
                        let next = skip_space(b, end);
                        let so_far = done.push((key, v));
                        if colon < b.len() && b[colon as int] == 0x3A {
                            assert forall|k: int| 0 <= k < so_far.len() implies writable(
                                (#[trigger] so_far[k]).1,
                                depth,
                            ) by {
                                if k < done.len() {
                                    assert(so_far[k] == done[k]);
                                }
                            }
                            if next < b.len() && b[next as int] == 0x2C && i <= next {
                                lemma_skip_space(b, next + 1);
                                lemma_members_writable(
                                    b,
                                    skip_space(b, next + 1),
                                    depth,
                                    so_far,
                                );
                            }
                        }
                    },
                }
            },
        }
    }
}

proof fn lemma_items_writable(b: Seq<u8>, i: nat, depth: nat, done: Seq<Json>)
    requires
        forall|k: int| 0 <= k < done.len() ==> writable(#[trigger] done[k], depth),
    ensures
        items_at(b, i, depth, done) matches Reading::Got(json, _) ==> writable(json, depth + 1),
    decreases depth, 1nat, b.len() - i,
{
    lemma_value_writable(b, i, depth);
    match value_at(b, i, depth) {
        Reading::Bad(_, _) => {},
        Reading::Got(v, end) => {
            let next = skip_space(b, end);
            let so_far = done.push(v);
            assert forall|k: int| 0 <= k < so_far.len() implies writable(
                #[trigger] so_far[k],
                depth,
            ) by {
                if k < done.len() {
                    assert(so_far[k] == done[k]);
                }
            }
            if next < b.len() && b[next as int] == 0x2C && i <= next {
                lemma_skip_space(b, next + 1);
                lemma_items_writable(b, skip_space(b, next + 1), depth, so_far);
            }
        },
    }
}

/// Whatever a text is read as can be written, and reading what is written gives
/// it again.
pub proof fn law_what_is_read_can_be_written(text: Seq<char>)
    ensures
        text_value(encode_utf8(text)) matches Reading::Got(json, _) ==> {
            &&& writable(json, MAX_DEPTH as nat)
            &&& text_value(encode_utf8(encoding(json))) == Reading::Got(
                json,
                encode_utf8(encoding(json)).len(),
            )
        },
{
    let b = encode_utf8(text);
    match text_value(b) {
        Reading::Bad(_, _) => {},
        Reading::Got(json, _) => {
            lemma_value_writable(b, skip_space(b, 0), MAX_DEPTH as nat);
            law_encodings_are_read_back(json);
        },
    }
}

/// What can be written within some depth can be written within more.
pub(crate) proof fn lemma_writable_deeper(json: Json, depth: nat, more: nat)
    requires
        writable(json, depth),
        depth <= more,
    ensures
        writable(json, more),
    decreases depth,
{
    match json {
        Json::Array(items) => {
            assert forall|i: int| 0 <= i < items.len() implies writable(
                #[trigger] items[i],
                (more - 1) as nat,
            ) by {
                lemma_writable_deeper(items[i], (depth - 1) as nat, (more - 1) as nat);
            }
        },
        Json::Object(members) => {
            assert forall|i: int| 0 <= i < members.len() implies writable(
                (#[trigger] members[i]).1,
                (more - 1) as nat,
            ) by {
                lemma_writable_deeper(members[i].1, (depth - 1) as nat, (more - 1) as nat);
            }
        },
        _ => {},
    }
}

/// Different values have different encodings.
pub proof fn law_encodings_tell_values_apart(a: Json, b: Json)
    requires
        writable(a, MAX_DEPTH as nat),
        writable(b, MAX_DEPTH as nat),
        encoding(a) == encoding(b),
    ensures
        a == b,
{
    law_encodings_are_read_back(a);
    law_encodings_are_read_back(b);
}

} // verus!
