//! The texts that JSON allows, built up from their parts.
//!
//! A spelling says how a value is put into bytes: which digits and signs a number
//! has, which escapes a string uses, and where there is whitespace. Its bytes and
//! its value are two things that can be read off it. The reader of the library
//! accepts the bytes of every spelling as its value, and nothing else.

use crate::json::grammar::{
    at, digits_at, digits_end, escape_at, exponent_part, fraction_part, hex_value, integer_part,
    is_space, items_at, lemma_digits_end, members_at, number_at, number_value, skip_space,
    string_at, text_value, unit_at, value_at, word_at, Reading, MAX_DEPTH,
};
use crate::json::laws::{lemma_number_moves, set_off};
use crate::json::value::Json;
use crate::number::{digits_value, is_digit};
use crate::text::{is_cut, lemma_encode_ascii, lemma_multibyte, lemma_next_cut, lemma_one_scalar};
use vstd::prelude::*;
use vstd::utf8::{
    decode_first_scalar, decode_utf8, encode_scalar, encode_utf8, is_ascii_chars,
    length_of_first_scalar, valid_first_scalar, valid_utf8,
};

verus! {

/// A number: a minus sign or none, digits, and a fraction and an exponent or not.
/// An exponent has its letter, a sign or none, and digits.
pub struct Numeral {
    pub minus: bool,
    pub whole: Seq<u8>,
    pub fraction: Option<Seq<u8>>,
    pub exponent: Option<(u8, Seq<u8>, Seq<u8>)>,
}

/// A character of a string: it stands for itself, or a backslash and a letter, one
/// code unit, or two stand for it.
pub enum Letter {
    Plain(char),
    Short(u8),
    Unit(Seq<u8>),
    Pair(Seq<u8>, Seq<u8>),
}

/// How a value is spelled. Each element of an array has whitespace before and
/// after it; each member of an object has its key, the whitespace before it, before
/// and after the colon, and after the value. What is empty may hold whitespace.
pub enum Spelling {
    Null,
    Bool(bool),
    Number(Numeral),
    Text(Seq<Letter>),
    Array(Seq<u8>, Seq<(Seq<u8>, Spelling, Seq<u8>)>),
    Object(Seq<u8>, Seq<((Seq<u8>, Seq<Letter>, Seq<u8>), (Seq<u8>, Spelling, Seq<u8>))>),
}

/// Some bytes are one or more digits.
pub open spec fn are_digits(d: Seq<u8>) -> bool {
    d.len() > 0 && forall|k: int| 0 <= k < d.len() ==> 0x30 <= #[trigger] d[k] <= 0x39
}

/// Some bytes are spaces, tabs, line feeds and carriage returns, or none.
pub open spec fn are_spaces(w: Seq<u8>) -> bool {
    forall|k: int|
        0 <= k < w.len() ==> (#[trigger] w[k] == 0x20 || w[k] == 0x09 || w[k] == 0x0A || w[k]
            == 0x0D)
}

/// The number that digits spell.
pub open spec fn amount(d: Seq<u8>) -> nat
    decreases d.len(),
{
    if d.len() == 0 {
        0
    } else {
        (10 * amount(d.drop_last()) + (d.last() - 0x30)) as nat
    }
}

/// A number is spelled right: there are digits wherever digits belong, and no zero
/// stands before others.
pub open spec fn good_numeral(n: Numeral) -> bool {
    &&& are_digits(n.whole)
    &&& n.whole[0] == 0x30 ==> n.whole.len() == 1
    &&& n.fraction matches Some(f) ==> are_digits(f)
    &&& n.exponent matches Some(e) ==> (e.0 == 0x65 || e.0 == 0x45) && (e.1 == Seq::<u8>::empty()
        || e.1 == seq![0x2Bu8] || e.1 == seq![0x2Du8]) && are_digits(e.2)
}

/// The bytes of a minus sign, or none.
pub open spec fn minus_bytes(n: Numeral) -> Seq<u8> {
    if n.minus {
        seq![0x2Du8]
    } else {
        Seq::empty()
    }
}

/// The bytes of a fraction, or none.
pub open spec fn fraction_bytes(n: Numeral) -> Seq<u8> {
    match n.fraction {
        Some(f) => seq![0x2Eu8] + f,
        None => Seq::empty(),
    }
}

/// The bytes of an exponent, or none.
pub open spec fn exponent_bytes(n: Numeral) -> Seq<u8> {
    match n.exponent {
        Some(e) => seq![e.0] + e.1 + e.2,
        None => Seq::empty(),
    }
}

/// The bytes of a number.
pub open spec fn numeral_bytes(n: Numeral) -> Seq<u8> {
    minus_bytes(n) + n.whole + fraction_bytes(n) + exponent_bytes(n)
}

/// What a number is: an integer if it has neither fraction nor exponent and fits
/// 64 bits, else a float that keeps its spelling.
pub open spec fn numeral_value(n: Numeral) -> Json {
    let whole = if n.minus {
        -(amount(n.whole) as int)
    } else {
        amount(n.whole) as int
    };
    if n.fraction is None && n.exponent is None && -0x8000_0000_0000_0000 <= whole
        <= 0x7FFF_FFFF_FFFF_FFFF {
        Json::Int(whole)
    } else {
        Json::Float(numeral_bytes(n).map_values(|byte: u8| byte as char))
    }
}

/// The value of a hexadecimal digit, in either case; none for another byte.
pub open spec fn hex_of(byte: u8) -> int {
    if 0x30 <= byte <= 0x39 {
        byte - 0x30
    } else if 0x61 <= byte <= 0x66 {
        byte - 0x57
    } else if 0x41 <= byte <= 0x46 {
        byte - 0x37
    } else {
        -1
    }
}

/// Four bytes are hexadecimal digits.
pub open spec fn are_hex(h: Seq<u8>) -> bool {
    h.len() == 4 && hex_of(h[0]) >= 0 && hex_of(h[1]) >= 0 && hex_of(h[2]) >= 0 && hex_of(h[3]) >= 0
}

/// The code unit that four hexadecimal digits give.
pub open spec fn unit_of(h: Seq<u8>) -> int {
    hex_of(h[0]) * 0x1000 + hex_of(h[1]) * 0x100 + hex_of(h[2]) * 0x10 + hex_of(h[3])
}

/// The character that a backslash and a letter stand for.
pub open spec fn short_of(letter: u8) -> Option<char> {
    if letter == 0x22 {
        Some('"')
    } else if letter == 0x5C {
        Some('\\')
    } else if letter == 0x2F {
        Some('/')
    } else if letter == 0x62 {
        Some('\u{8}')
    } else if letter == 0x66 {
        Some('\u{c}')
    } else if letter == 0x6E {
        Some('\n')
    } else if letter == 0x72 {
        Some('\r')
    } else if letter == 0x74 {
        Some('\t')
    } else {
        None
    }
}

/// A character is spelled right. Quotes, backslashes and control characters do not
/// stand for themselves; one unit is no half of a pair, and two are a high and a
/// low half.
pub open spec fn good_letter(l: Letter) -> bool {
    match l {
        Letter::Plain(c) => c as u32 >= 0x20 && c != '"' && c != '\\',
        Letter::Short(letter) => short_of(letter) is Some,
        Letter::Unit(h) => are_hex(h) && !(0xD800 <= unit_of(h) <= 0xDFFF),
        Letter::Pair(h, l) => are_hex(h) && are_hex(l) && 0xD800 <= unit_of(h) <= 0xDBFF && 0xDC00
            <= unit_of(l) <= 0xDFFF,
    }
}

/// The bytes of a character.
pub open spec fn letter_bytes(l: Letter) -> Seq<u8> {
    match l {
        Letter::Plain(c) => encode_utf8(seq![c]),
        Letter::Short(letter) => seq![0x5Cu8, letter],
        Letter::Unit(h) => seq![0x5Cu8, 0x75] + h,
        Letter::Pair(h, l) => seq![0x5Cu8, 0x75] + h + (seq![0x5Cu8, 0x75] + l),
    }
}

/// The character that is spelled.
pub open spec fn letter_value(l: Letter) -> char {
    match l {
        Letter::Plain(c) => c,
        Letter::Short(letter) => short_of(letter)->0,
        Letter::Unit(h) => unit_of(h) as char,
        Letter::Pair(h, l) => (0x10000 + (unit_of(h) - 0xD800) * 0x400 + (unit_of(l)
            - 0xDC00)) as char,
    }
}

/// The bytes of characters in a row.
pub open spec fn letters_bytes(letters: Seq<Letter>) -> Seq<u8>
    decreases letters.len(),
{
    if letters.len() == 0 {
        Seq::empty()
    } else {
        letter_bytes(letters[0]) + letters_bytes(letters.skip(1))
    }
}

/// The text that characters make up.
pub open spec fn letters_value(letters: Seq<Letter>) -> Seq<char> {
    letters.map_values(|l: Letter| letter_value(l))
}

/// Characters are spelled right.
pub open spec fn good_letters(letters: Seq<Letter>) -> bool {
    forall|k: int| 0 <= k < letters.len() ==> good_letter(#[trigger] letters[k])
}

/// The bytes of a string.
pub open spec fn string_bytes(letters: Seq<Letter>) -> Seq<u8> {
    seq![0x22u8] + letters_bytes(letters) + seq![0x22u8]
}

/// A value is spelled right, nested at most `depth` levels deep.
pub open spec fn good(s: Spelling, depth: nat) -> bool
    decreases depth,
{
    match s {
        Spelling::Null => true,
        Spelling::Bool(_) => true,
        Spelling::Number(n) => good_numeral(n),
        Spelling::Text(letters) => good_letters(letters),
        Spelling::Array(gap, items) => depth > 0 && are_spaces(gap) && forall|k: int|
            0 <= k < items.len() ==> are_spaces((#[trigger] items[k]).0) && good(
                items[k].1,
                (depth - 1) as nat,
            ) && are_spaces(items[k].2),
        Spelling::Object(gap, members) => depth > 0 && are_spaces(gap) && forall|k: int|
            0 <= k < members.len() ==> are_spaces((#[trigger] members[k]).0.0) && good_letters(
                members[k].0.1,
            ) && are_spaces(members[k].0.2) && are_spaces(members[k].1.0) && good(
                members[k].1.1,
                (depth - 1) as nat,
            ) && are_spaces(members[k].1.2),
    }
}

/// The bytes of a value.
pub open spec fn bytes_of(s: Spelling) -> Seq<u8>
    decreases s,
{
    match s {
        Spelling::Null => seq![0x6Eu8, 0x75, 0x6C, 0x6C],
        Spelling::Bool(true) => seq![0x74u8, 0x72, 0x75, 0x65],
        Spelling::Bool(false) => seq![0x66u8, 0x61, 0x6C, 0x73, 0x65],
        Spelling::Number(n) => numeral_bytes(n),
        Spelling::Text(letters) => string_bytes(letters),
        Spelling::Array(gap, items) => if items.len() == 0 {
            seq![0x5Bu8] + gap + seq![0x5Du8]
        } else {
            seq![0x5Bu8] + items_bytes(items) + seq![0x5Du8]
        },
        Spelling::Object(gap, members) => if members.len() == 0 {
            seq![0x7Bu8] + gap + seq![0x7Du8]
        } else {
            seq![0x7Bu8] + members_bytes(members) + seq![0x7Du8]
        },
    }
}

/// The bytes of elements, with commas between them.
pub open spec fn items_bytes(items: Seq<(Seq<u8>, Spelling, Seq<u8>)>) -> Seq<u8>
    decreases items,
{
    if items.len() == 0 {
        Seq::empty()
    } else if items.len() == 1 {
        items[0].0 + bytes_of(items[0].1) + items[0].2
    } else {
        items[0].0 + bytes_of(items[0].1) + items[0].2 + seq![0x2Cu8] + items_bytes(items.skip(1))
    }
}

/// The bytes of members, with commas between them.
pub open spec fn members_bytes(
    members: Seq<((Seq<u8>, Seq<Letter>, Seq<u8>), (Seq<u8>, Spelling, Seq<u8>))>,
) -> Seq<u8>
    decreases members,
{
    if members.len() == 0 {
        Seq::empty()
    } else {
        let (k, v) = members[0];
        let here = k.0 + string_bytes(k.1) + k.2 + seq![0x3Au8] + v.0 + bytes_of(members[0].1.1)
            + v.2;
        if members.len() == 1 {
            here
        } else {
            here + seq![0x2Cu8] + members_bytes(members.skip(1))
        }
    }
}

/// The value that is spelled.
pub open spec fn value_of(s: Spelling) -> Json
    decreases s,
{
    match s {
        Spelling::Null => Json::Null,
        Spelling::Bool(b) => Json::Bool(b),
        Spelling::Number(n) => numeral_value(n),
        Spelling::Text(letters) => Json::Str(letters_value(letters)),
        Spelling::Array(_, items) => Json::Array(items_value(items)),
        Spelling::Object(_, members) => Json::Object(members_value(members)),
    }
}

/// The values of elements.
pub open spec fn items_value(items: Seq<(Seq<u8>, Spelling, Seq<u8>)>) -> Seq<Json>
    decreases items,
{
    if items.len() == 0 {
        Seq::empty()
    } else {
        seq![value_of(items[0].1)] + items_value(items.skip(1))
    }
}

/// The keys and values of members.
pub open spec fn members_value(
    members: Seq<((Seq<u8>, Seq<Letter>, Seq<u8>), (Seq<u8>, Spelling, Seq<u8>))>,
) -> Seq<(Seq<char>, Json)>
    decreases members,
{
    if members.len() == 0 {
        Seq::empty()
    } else {
        seq![(letters_value(members[0].0.1), value_of(members[0].1.1))] + members_value(
            members.skip(1),
        )
    }
}

/// Bytes stand at a place.
pub open spec fn stands(b: Seq<u8>, i: nat, t: Seq<u8>) -> bool {
    i + t.len() <= b.len() && b.subrange(i as int, (i + t.len()) as int) == t
}

/// At a place there is nothing more, or a byte that may follow a value.
spec fn may_end(b: Seq<u8>, i: nat) -> bool {
    i >= b.len() || is_space(b[i as int]) || b[i as int] == 0x2C || b[i as int] == 0x5D
        || b[i as int] == 0x7D
}

proof fn lemma_stands_apart(b: Seq<u8>, i: nat, s: Seq<u8>, t: Seq<u8>)
    requires
        stands(b, i, s + t),
    ensures
        stands(b, i, s),
        stands(b, i + s.len(), t),
{
    let all = b.subrange(i as int, (i + s.len() + t.len()) as int);
    assert(all == s + t);
    assert(b.subrange(i as int, (i + s.len()) as int) =~= all.take(s.len() as int));
    assert((s + t).take(s.len() as int) =~= s);
    assert(b.subrange((i + s.len()) as int, (i + s.len() + t.len()) as int) =~= all.skip(
        s.len() as int,
    ));
    assert((s + t).skip(s.len() as int) =~= t);
}

proof fn lemma_stands_byte(b: Seq<u8>, i: nat, t: Seq<u8>, k: int)
    requires
        stands(b, i, t),
        0 <= k < t.len(),
    ensures
        b[i + k] == t[k],
{
    assert(b.subrange(i as int, (i + t.len()) as int)[k] == b[i + k]);
}

/// Whitespace is skipped up to what follows it.
proof fn lemma_spaces_are_skipped(b: Seq<u8>, i: nat, w: Seq<u8>)
    requires
        stands(b, i, w),
        are_spaces(w),
        i + w.len() >= b.len() || !is_space(b[(i + w.len()) as int]),
    ensures
        skip_space(b, i) == i + w.len(),
    decreases w.len(),
{
    if w.len() > 0 {
        lemma_stands_byte(b, i, w, 0);
        assert(w =~= seq![w[0]] + w.skip(1));
        lemma_stands_apart(b, i, seq![w[0]], w.skip(1));
        assert forall|k: int| 0 <= k < w.skip(1).len() implies (#[trigger] w.skip(1)[k] == 0x20
            || w.skip(1)[k] == 0x09 || w.skip(1)[k] == 0x0A || w.skip(1)[k] == 0x0D) by {
            assert(w.skip(1)[k] == w[k + 1]);
        }
        lemma_spaces_are_skipped(b, i + 1, w.skip(1));
    }
}

proof fn lemma_digits_stop(b: Seq<u8>, i: nat, j: nat)
    requires
        i <= j <= b.len(),
        forall|k: int| i <= k < j ==> 0x30 <= #[trigger] b[k] <= 0x39,
        j < b.len() ==> !(0x30 <= b[j as int] <= 0x39),
    ensures
        digits_end(b, i) == j,
    decreases j - i,
{
    if i < j {
        lemma_digits_stop(b, i + 1, j);
    }
}

/// Digits in a row are read up to their end.
proof fn lemma_digits_read(b: Seq<u8>, i: nat, d: Seq<u8>)
    requires
        stands(b, i, d),
        are_digits(d),
        i + d.len() < b.len() ==> !(0x30 <= b[(i + d.len()) as int] <= 0x39),
    ensures
        digits_at(b, i) == Reading::Got((), i + d.len()),
{
    lemma_stands_byte(b, i, d, 0);
    assert forall|k: int| i <= k < i + d.len() implies 0x30 <= #[trigger] b[k] <= 0x39 by {
        lemma_stands_byte(b, i, d, k - i);
        assert(0x30 <= d[k - i] <= 0x39);
    }
    lemma_digits_stop(b, i, i + d.len());
}

proof fn lemma_amount(b: Seq<u8>, i: nat, d: Seq<u8>)
    requires
        stands(b, i, d),
        are_digits(d) || d.len() == 0,
    ensures
        digits_value(b, i, i + d.len()) == amount(d),
    decreases d.len(),
{
    if d.len() > 0 {
        let head = d.drop_last();
        assert(d =~= head + seq![d.last()]);
        lemma_stands_apart(b, i, head, seq![d.last()]);
        lemma_stands_byte(b, i, d, d.len() - 1);
        assert forall|k: int| 0 <= k < head.len() implies 0x30 <= #[trigger] head[k] <= 0x39 by {
            assert(head[k] == d[k]);
        }
        lemma_amount(b, i, head);
        assert(0x30 <= d[d.len() - 1] <= 0x39);
    }
}

/// ASCII bytes decode one by one.
proof fn lemma_ascii_decodes(b: Seq<u8>)
    requires
        forall|k: int| 0 <= k < b.len() ==> #[trigger] b[k] < 0x80,
    ensures
        decode_utf8(b) == b.map_values(|byte: u8| byte as char),
{
    let s = b.map_values(|byte: u8| byte as char);
    assert forall|k: int| 0 <= k < s.len() implies 0 <= #[trigger] s[k] < 0x80 by {
        assert(s[k] == b[k] as char);
        assert(b[k] < 0x80);
    }
    assert(is_ascii_chars(s));
    vstd::utf8::is_ascii_chars_encode_utf8(s);
    assert(encode_utf8(s) =~= b) by {
        assert forall|k: int| 0 <= k < b.len() implies encode_utf8(s)[k] == b[k] by {
            assert(s[k] as u8 == b[k]);
        }
    }
    vstd::utf8::encode_utf8_decode_utf8(s);
}

/// The places of the parts of a number.
proof fn lemma_numeral_parts(n: Numeral)
    requires
        good_numeral(n),
    ensures
        ({
            let t = numeral_bytes(n);
            let first = minus_bytes(n).len();
            let int_end = first + n.whole.len();
            let frac_end = int_end + fraction_bytes(n).len();
            &&& t.len() == frac_end + exponent_bytes(n).len()
            &&& stands(t, 0, minus_bytes(n))
            &&& stands(t, first, n.whole)
            &&& stands(t, int_end, fraction_bytes(n))
            &&& stands(t, frac_end, exponent_bytes(n))
            &&& int_end < t.len() ==> t[int_end as int] == 0x2E || t[int_end as int] == 0x65
                || t[int_end as int] == 0x45
            &&& frac_end < t.len() ==> t[frac_end as int] == 0x65 || t[frac_end as int] == 0x45
            &&& t[0] == 0x2D <==> n.minus
            &&& t[0] == 0x2D || 0x30 <= t[0] <= 0x39
            &&& forall|k: int| 0 <= k < t.len() ==> #[trigger] t[k] < 0x80
        }),
{
    let t = numeral_bytes(n);
    let m = minus_bytes(n);
    let w = n.whole;
    let f = fraction_bytes(n);
    let e = exponent_bytes(n);
    assert(t.subrange(0, t.len() as int) =~= t);
    lemma_stands_apart(t, 0, m + w + f, e);
    lemma_stands_apart(t, 0, m + w, f);
    lemma_stands_apart(t, 0, m, w);
    let int_end = m.len() + w.len();
    let frac_end = int_end + f.len();
    if f.len() > 0 {
        lemma_stands_byte(t, int_end, f, 0);
    }
    if e.len() > 0 {
        lemma_stands_byte(t, frac_end, e, 0);
    }
    lemma_stands_byte(t, m.len(), w, 0);
    if n.minus {
        lemma_stands_byte(t, 0, m, 0);
    }
    assert(0x30 <= w[0] <= 0x39);
    assert forall|k: int| 0 <= k < t.len() implies #[trigger] t[k] < 0x80 by {
        if k < m.len() {
            lemma_stands_byte(t, 0, m, k);
        } else if k < int_end {
            lemma_stands_byte(t, m.len(), w, k - m.len());
            assert(0x30 <= w[k - m.len()] <= 0x39);
        } else if k < frac_end {
            lemma_stands_byte(t, int_end, f, k - int_end);
            if k > int_end {
                assert(f[k - int_end] == n.fraction->0[k - int_end - 1]);
            }
        } else {
            lemma_stands_byte(t, frac_end, e, k - frac_end);
            let x = n.exponent->0;
            let p = k - frac_end;
            if p >= 1 + x.1.len() {
                assert(e[p] == x.2[p - 1 - x.1.len()]);
            } else if p >= 1 {
                assert(e[p] == x.1[p - 1]);
            }
        }
    }
}

proof fn lemma_exponent_reads(t: Seq<u8>, n: Numeral, frac_end: nat)
    requires
        good_numeral(n),
        stands(t, frac_end, exponent_bytes(n)),
        frac_end + exponent_bytes(n).len() == t.len(),
    ensures
        exponent_part(t, frac_end) == Reading::Got((), t.len()),
{
    match n.exponent {
        None => {},
        Some(x) => {
            let e = exponent_bytes(n);
            lemma_stands_byte(t, frac_end, e, 0);
            assert(e =~= seq![x.0] + (x.1 + x.2));
            lemma_stands_apart(t, frac_end, seq![x.0], x.1 + x.2);
            lemma_stands_apart(t, frac_end + 1, x.1, x.2);
            lemma_digits_read(t, frac_end + 1 + x.1.len(), x.2);
            lemma_stands_byte(t, frac_end + 1 + x.1.len(), x.2, 0);
            assert(0x30 <= x.2[0] <= 0x39);
            if x.1.len() > 0 {
                lemma_stands_byte(t, frac_end + 1, x.1, 0);
            }
        },
    }
}

proof fn lemma_numeral_reads(n: Numeral)
    requires
        good_numeral(n),
    ensures
        number_at(numeral_bytes(n), 0) == Reading::Got(numeral_value(n), numeral_bytes(n).len()),
{
    let t = numeral_bytes(n);
    lemma_numeral_parts(n);
    let first = minus_bytes(n).len();
    let int_end = first + n.whole.len();
    let frac_end = int_end + fraction_bytes(n).len();
    lemma_stands_byte(t, first, n.whole, 0);
    lemma_digits_read(t, first, n.whole);
    assert(integer_part(t, first) == Reading::Got((), int_end));
    match n.fraction {
        None => {},
        Some(f) => {
            lemma_stands_byte(t, int_end, fraction_bytes(n), 0);
            lemma_stands_apart(t, int_end, seq![0x2Eu8], f);
            lemma_digits_read(t, int_end + 1, f);
        },
    }
    assert(fraction_part(t, int_end) == Reading::Got((), frac_end));
    lemma_exponent_reads(t, n, frac_end);
    lemma_amount(t, first, n.whole);
    assert(t.subrange(0, t.len() as int) =~= t);
    lemma_ascii_decodes(t);
    assert(int_end == t.len() <==> n.fraction is None && n.exponent is None) by {
        if n.fraction is Some {
            assert(fraction_bytes(n).len() > 0);
        }
        if n.exponent is Some {
            assert(exponent_bytes(n).len() > 0);
        }
    }
}

/// A number that stands where a value may end is read as what it spells.
proof fn lemma_number_stands(b: Seq<u8>, i: nat, n: Numeral)
    requires
        good_numeral(n),
        stands(b, i, numeral_bytes(n)),
        may_end(b, i + numeral_bytes(n).len()),
    ensures
        number_at(b, i) == Reading::Got(numeral_value(n), i + numeral_bytes(n).len()),
        b[i as int] == 0x2D || is_digit(b[i as int]),
{
    let t = numeral_bytes(n);
    lemma_numeral_parts(n);
    lemma_numeral_reads(n);
    assert forall|k: int| 0 <= k < t.len() implies b[i + k] == #[trigger] t[k] by {
        lemma_stands_byte(b, i, t, k);
    }
    assert(set_off(b, i, t));
    lemma_number_moves(b, i, t, numeral_value(n));
    assert(b[i as int + 0] == t[0]);
}

/// The first character of some bytes depends on its own bytes alone.
proof fn lemma_first_letter(rest: Seq<u8>, c: char)
    requires
        rest.len() >= encode_utf8(seq![c]).len(),
        rest.take(encode_utf8(seq![c]).len() as int) == encode_utf8(seq![c]),
    ensures
        decode_first_scalar(rest) as char == c,
        length_of_first_scalar(rest) == encode_utf8(seq![c]).len(),
        c as u32 >= 0x80 ==> rest[0] >= 0x80,
        (c as u32) < 0x80 ==> rest[0] == c as u8,
        encode_utf8(seq![c]).len() > 0,
{
    let e = encode_utf8(seq![c]);
    vstd::utf8::encode_utf8_first_scalar(seq![c]);
    assert(seq![c].drop_first() =~= Seq::empty());
    assert(encode_utf8(seq![c].drop_first()) =~= Seq::empty());
    assert(e =~= encode_scalar(c as u32));
    vstd::utf8::char_is_scalar(c);
    assert(rest.take(e.len() as int)[0] == rest[0]);
    if e.len() > 1 {
        assert(rest.take(e.len() as int)[1] == rest[1]);
    }
    if e.len() > 2 {
        assert(rest.take(e.len() as int)[2] == rest[2]);
    }
    if e.len() > 3 {
        assert(rest.take(e.len() as int)[3] == rest[3]);
    }
    vstd::utf8::char_u32_cast(c, decode_first_scalar(e));
    if (c as u32) < 0x80 {
        lemma_encode_ascii(c);
    } else {
        lemma_multibyte(c as u32);
    }
}

proof fn lemma_unit_stands(b: Seq<u8>, i: nat, h: Seq<u8>)
    requires
        are_hex(h),
        stands(b, i, seq![0x5Cu8, 0x75] + h),
    ensures
        unit_at(b, i) == Some(unit_of(h) as nat),
        0 <= unit_of(h) <= 0xFFFF,
{
    let t = seq![0x5Cu8, 0x75] + h;
    lemma_stands_byte(b, i, t, 0);
    lemma_stands_byte(b, i, t, 1);
    lemma_stands_byte(b, i, t, 2);
    lemma_stands_byte(b, i, t, 3);
    lemma_stands_byte(b, i, t, 4);
    lemma_stands_byte(b, i, t, 5);
    let k = i + 2;
    assert(b[k as int] == h[0] && b[k as int + 1] == h[1] && b[k as int + 2] == h[2] && b[k as int
        + 3] == h[3]);
    assert(hex_value(b, k, 0) == Some(0nat));
    assert(hex_value(b, k, 1) == Some(hex_of(h[0]) as nat));
    assert(hex_value(b, k, 2) == Some((hex_of(h[0]) * 0x10 + hex_of(h[1])) as nat));
    assert(hex_value(b, k, 3) == Some(
        (hex_of(h[0]) * 0x100 + hex_of(h[1]) * 0x10 + hex_of(h[2])) as nat,
    ));
    assert(hex_value(b, k, 4) == Some(unit_of(h) as nat));
}

/// A character of a string is read as what it spells.
proof fn lemma_letter_stands(b: Seq<u8>, i: nat, l: Letter, done: Seq<char>)
    requires
        good_letter(l),
        stands(b, i, letter_bytes(l)),
    ensures
        letter_bytes(l).len() > 0,
        string_at(b, i, done) == string_at(
            b,
            i + letter_bytes(l).len(),
            done.push(letter_value(l)),
        ),
{
    let t = letter_bytes(l);
    match l {
        Letter::Plain(c) => {
            let rest = b.skip(i as int);
            lemma_encode_one(c);
            assert(rest.take(t.len() as int) =~= b.subrange(i as int, (i + t.len()) as int));
            lemma_first_letter(rest, c);
            assert(rest[0] == b[i as int]);
        },
        Letter::Short(letter) => {
            lemma_stands_byte(b, i, t, 0);
            lemma_stands_byte(b, i, t, 1);
            assert(escape_at(b, i) == Reading::Got(letter_value(l), i + 2));
        },
        Letter::Unit(h) => {
            lemma_unit_stands(b, i, h);
            lemma_stands_byte(b, i, t, 0);
            lemma_stands_byte(b, i, t, 1);
            assert(escape_at(b, i) == Reading::Got(letter_value(l), i + 6));
        },
        Letter::Pair(h, low) => {
            lemma_stands_apart(b, i, seq![0x5Cu8, 0x75] + h, seq![0x5Cu8, 0x75] + low);
            lemma_unit_stands(b, i, h);
            lemma_unit_stands(b, i + 6, low);
            lemma_stands_byte(b, i, t, 0);
            lemma_stands_byte(b, i, t, 1);
            assert(escape_at(b, i) == Reading::Got(letter_value(l), i + 12));
        },
    }
}

proof fn lemma_encode_one(c: char)
    ensures
        encode_utf8(seq![c]).len() > 0,
{
    vstd::utf8::encode_utf8_first_scalar(seq![c]);
}

/// A string is read as the text that it spells, up to its closing quote.
proof fn lemma_string_stands(b: Seq<u8>, i: nat, letters: Seq<Letter>, done: Seq<char>)
    requires
        good_letters(letters),
        stands(b, i, letters_bytes(letters) + seq![0x22u8]),
    ensures
        string_at(b, i, done) == Reading::Got(
            done + letters_value(letters),
            (i + letters_bytes(letters).len() + 1) as nat,
        ),
    decreases letters.len(),
{
    let quote = seq![0x22u8];
    if letters.len() == 0 {
        lemma_stands_apart(b, i, letters_bytes(letters), quote);
        lemma_stands_byte(b, i, quote, 0);
        assert(done + letters_value(letters) =~= done);
    } else {
        let l = letters[0];
        let rest = letters.skip(1);
        assert(letters_bytes(letters) + quote =~= letter_bytes(l) + (letters_bytes(rest) + quote));
        lemma_stands_apart(b, i, letter_bytes(l), letters_bytes(rest) + quote);
        assert(good_letter(letters[0]));
        lemma_letter_stands(b, i, l, done);
        assert forall|k: int| 0 <= k < rest.len() implies good_letter(#[trigger] rest[k]) by {
            assert(rest[k] == letters[k + 1]);
        }
        lemma_string_stands(b, i + letter_bytes(l).len(), rest, done.push(letter_value(l)));
        assert(done.push(letter_value(l)) + letters_value(rest) =~= done + letters_value(letters));
    }
}

/// The first byte of a value is no whitespace, and no bracket that closes.
proof fn lemma_first_byte(s: Spelling, depth: nat)
    requires
        good(s, depth),
    ensures
        bytes_of(s).len() > 0,
        !is_space(bytes_of(s)[0]),
        bytes_of(s)[0] != 0x5D,
        bytes_of(s)[0] != 0x7D,
{
    match s {
        Spelling::Number(n) => {
            lemma_numeral_parts(n);
            assert(n.whole.len() > 0);
        },
        _ => {},
    }
}

proof fn lemma_other_word(b: Seq<u8>, i: nat, word: Seq<u8>)
    requires
        i < b.len(),
        word.len() > 0,
        b[i as int] != word[0],
    ensures
        !word_at(b, i, word),
{
    if word_at(b, i, word) {
        assert(b.subrange(i as int, (i + word.len()) as int)[0] == b[i as int]);
    }
}

proof fn lemma_array_stands(
    b: Seq<u8>,
    i: nat,
    gap: Seq<u8>,
    items: Seq<(Seq<u8>, Spelling, Seq<u8>)>,
    depth: nat,
)
    requires
        good(Spelling::Array(gap, items), depth),
        stands(b, i, bytes_of(Spelling::Array(gap, items))),
    ensures
        value_at(b, i, depth) == Reading::Got(
            Json::Array(items_value(items)),
            i + bytes_of(Spelling::Array(gap, items)).len(),
        ),
    decreases depth, 1nat, 0nat,
{
    let s = Spelling::Array(gap, items);
    let t = bytes_of(s);
    let open = seq![0x5Bu8];
    let close = seq![0x5Du8];
    lemma_stands_byte(b, i, t, 0);
    if items.len() == 0 {
        assert(t =~= open + (gap + close));
        lemma_stands_apart(b, i, open, gap + close);
        lemma_stands_apart(b, i + 1, gap, close);
        lemma_stands_byte(b, i + 1 + gap.len(), close, 0);
        lemma_spaces_are_skipped(b, i + 1, gap);
        assert(items_value(items) =~= Seq::empty());
    } else {
        let inner = items_bytes(items);
        assert(t =~= open + (inner + close));
        lemma_stands_apart(b, i, open, inner + close);
        lemma_items_stand(b, i + 1, items, (depth - 1) as nat, Seq::empty());
        assert(Seq::<Json>::empty() + items_value(items) =~= items_value(items));
    }
}

proof fn lemma_object_stands(
    b: Seq<u8>,
    i: nat,
    gap: Seq<u8>,
    members: Seq<((Seq<u8>, Seq<Letter>, Seq<u8>), (Seq<u8>, Spelling, Seq<u8>))>,
    depth: nat,
)
    requires
        good(Spelling::Object(gap, members), depth),
        stands(b, i, bytes_of(Spelling::Object(gap, members))),
    ensures
        value_at(b, i, depth) == Reading::Got(
            Json::Object(members_value(members)),
            i + bytes_of(Spelling::Object(gap, members)).len(),
        ),
    decreases depth, 1nat, 0nat,
{
    let s = Spelling::Object(gap, members);
    let t = bytes_of(s);
    let open = seq![0x7Bu8];
    let close = seq![0x7Du8];
    lemma_stands_byte(b, i, t, 0);
    if members.len() == 0 {
        assert(t =~= open + (gap + close));
        lemma_stands_apart(b, i, open, gap + close);
        lemma_stands_apart(b, i + 1, gap, close);
        lemma_stands_byte(b, i + 1 + gap.len(), close, 0);
        lemma_spaces_are_skipped(b, i + 1, gap);
        assert(members_value(members) =~= Seq::empty());
    } else {
        let inner = members_bytes(members);
        assert(t =~= open + (inner + close));
        lemma_stands_apart(b, i, open, inner + close);
        lemma_members_stand(b, i + 1, members, (depth - 1) as nat, Seq::empty());
        assert(Seq::<(Seq<char>, Json)>::empty() + members_value(members) =~= members_value(
            members,
        ));
    }
}

/// A value that stands where one may end is read as what it spells.
#[verifier::spinoff_prover]
proof fn lemma_value_stands(b: Seq<u8>, i: nat, s: Spelling, depth: nat)
    requires
        good(s, depth),
        stands(b, i, bytes_of(s)),
        may_end(b, i + bytes_of(s).len()),
    ensures
        value_at(b, i, depth) == Reading::Got(value_of(s), i + bytes_of(s).len()),
    decreases depth, 2nat, 0nat,
{
    let t = bytes_of(s);
    lemma_first_byte(s, depth);
    lemma_stands_byte(b, i, t, 0);
    match s {
        Spelling::Null => {
            lemma_other_word(b, i, seq![0x74, 0x72, 0x75, 0x65]);
            lemma_other_word(b, i, seq![0x66, 0x61, 0x6C, 0x73, 0x65]);
        },
        Spelling::Bool(truth) => {
            if !truth {
                lemma_other_word(b, i, seq![0x74, 0x72, 0x75, 0x65]);
            }
        },
        Spelling::Number(n) => {
            lemma_number_stands(b, i, n);
        },
        Spelling::Text(letters) => {
            assert(t =~= seq![0x22u8] + (letters_bytes(letters) + seq![0x22u8]));
            lemma_stands_apart(b, i, seq![0x22u8], letters_bytes(letters) + seq![0x22u8]);
            lemma_string_stands(b, i + 1, letters, Seq::empty());
            assert(Seq::<char>::empty() + letters_value(letters) =~= letters_value(letters));
        },
        Spelling::Array(gap, items) => {
            lemma_array_stands(b, i, gap, items, depth);
        },
        Spelling::Object(gap, members) => {
            lemma_object_stands(b, i, gap, members, depth);
        },
    }
}

/// A value with whitespace around it is read, up to the byte that follows.
proof fn lemma_padded_stands(
    b: Seq<u8>,
    i: nat,
    before: Seq<u8>,
    s: Spelling,
    then: Seq<u8>,
    depth: nat,
) -> (next: nat)
    requires
        good(s, depth),
        are_spaces(before),
        are_spaces(then),
        stands(b, i, before + bytes_of(s) + then),
        ({
            let end = i + before.len() + bytes_of(s).len() + then.len();
            end >= b.len() || b[end as int] == 0x2C || b[end as int] == 0x5D || b[end as int]
                == 0x7D
        }),
    ensures
        next == i + before.len() + bytes_of(s).len() + then.len(),
        i <= skip_space(b, i) < b.len(),
        b[skip_space(b, i) as int] == bytes_of(s)[0],
        value_at(b, skip_space(b, i), depth) == Reading::Got(
            value_of(s),
            (next - then.len()) as nat,
        ),
        skip_space(b, (next - then.len()) as nat) == next,
        skip_space(b, i) <= next,
    decreases depth, 3nat, 0nat,
{
    let t = bytes_of(s);
    lemma_first_byte(s, depth);
    lemma_stands_apart(b, i, before + t, then);
    lemma_stands_apart(b, i, before, t);
    let from = i + before.len();
    let end = from + t.len();
    lemma_stands_byte(b, from, t, 0);
    lemma_spaces_are_skipped(b, i, before);
    lemma_spaces_are_skipped(b, end, then);
    if then.len() > 0 {
        lemma_stands_byte(b, end, then, 0);
        assert(is_space(then[0]));
    }
    lemma_value_stands(b, from, s, depth);
    end + then.len()
}

proof fn lemma_items_stand(
    b: Seq<u8>,
    i: nat,
    items: Seq<(Seq<u8>, Spelling, Seq<u8>)>,
    depth: nat,
    done: Seq<Json>,
)
    requires
        items.len() > 0,
        forall|k: int|
            0 <= k < items.len() ==> are_spaces((#[trigger] items[k]).0) && good(
                items[k].1,
                depth,
            ) && are_spaces(items[k].2),
        stands(b, i, items_bytes(items) + seq![0x5Du8]),
    ensures
        items_at(b, skip_space(b, i), depth, done) == Reading::Got(
            Json::Array(done + items_value(items)),
            (i + items_bytes(items).len() + 1) as nat,
        ),
        !at(b, skip_space(b, i), 0x5D),
    decreases depth, 4nat, items.len(),
{
    let close = seq![0x5Du8];
    let (before, s, then) = items[0];
    assert(are_spaces(items[0].0) && good(items[0].1, depth) && are_spaces(items[0].2));
    let here = before + bytes_of(s) + then;
    let rest = items.skip(1);
    lemma_first_byte(s, depth);
    if items.len() == 1 {
        lemma_stands_apart(b, i, here, close);
        lemma_stands_byte(b, i + here.len(), close, 0);
        let next = lemma_padded_stands(b, i, before, s, then, depth);
        assert(items_value(rest) =~= Seq::empty());
        assert(done.push(value_of(s)) =~= done + items_value(items));
    } else {
        let comma = seq![0x2Cu8];
        let later = items_bytes(rest) + close;
        assert(items_bytes(items) + close =~= here + (comma + later));
        lemma_stands_apart(b, i, here, comma + later);
        lemma_stands_apart(b, i + here.len(), comma, later);
        lemma_stands_byte(b, i + here.len(), comma, 0);
        let next = lemma_padded_stands(b, i, before, s, then, depth);
        assert forall|k: int| 0 <= k < rest.len() implies are_spaces((#[trigger] rest[k]).0) && good(
            rest[k].1,
            depth,
        ) && are_spaces(rest[k].2) by {
            assert(rest[k] == items[k + 1]);
        }
        lemma_items_stand(b, next + 1, rest, depth, done.push(value_of(s)));
        assert(done.push(value_of(s)) + items_value(rest) =~= done + items_value(items));
    }
}

/// A key, its colon and its value are read.
proof fn lemma_member_stands(
    b: Seq<u8>,
    i: nat,
    m: ((Seq<u8>, Seq<Letter>, Seq<u8>), (Seq<u8>, Spelling, Seq<u8>)),
    depth: nat,
) -> (places: (nat, nat, nat))
    requires
        are_spaces(m.0.0),
        good_letters(m.0.1),
        are_spaces(m.0.2),
        are_spaces(m.1.0),
        good(m.1.1, depth),
        are_spaces(m.1.2),
        stands(
            b,
            i,
            m.0.0 + string_bytes(m.0.1) + m.0.2 + seq![0x3Au8] + m.1.0 + bytes_of(m.1.1) + m.1.2,
        ),
        ({
            let end = i + m.0.0.len() + string_bytes(m.0.1).len() + m.0.2.len() + 1 + m.1.0.len()
                + bytes_of(m.1.1).len() + m.1.2.len();
            end < b.len() && (b[end as int] == 0x2C || b[end as int] == 0x7D)
        }),
    ensures
        skip_space(b, i) < b.len(),
        b[skip_space(b, i) as int] == 0x22,
        string_at(b, skip_space(b, i) + 1, Seq::empty()) == Reading::Got(
            letters_value(m.0.1),
            places.0,
        ),
        skip_space(b, places.0) < b.len(),
        b[skip_space(b, places.0) as int] == 0x3A,
        value_at(b, skip_space(b, skip_space(b, places.0) + 1), depth) == Reading::Got(
            value_of(m.1.1),
            places.1,
        ),
        skip_space(b, places.1) == places.2,
        skip_space(b, i) <= places.2,
        places.2 == i + m.0.0.len() + string_bytes(m.0.1).len() + m.0.2.len() + 1 + m.1.0.len()
            + bytes_of(m.1.1).len() + m.1.2.len(),
    decreases depth, 4nat, 0nat,
{
    let (before, letters, mid) = m.0;
    let (gap, s, then) = m.1;
    let key = string_bytes(letters);
    let colon = seq![0x3Au8];
    let value = gap + bytes_of(s) + then;
    assert(before + key + mid + colon + gap + bytes_of(s) + then =~= before + (key + (mid + (colon
        + value))));
    lemma_stands_apart(b, i, before, key + (mid + (colon + value)));
    let p = i + before.len();
    lemma_stands_apart(b, p, key, mid + (colon + value));
    let q = p + key.len();
    lemma_stands_apart(b, q, mid, colon + value);
    let r = q + mid.len();
    lemma_stands_apart(b, r, colon, value);
    lemma_stands_byte(b, p, key, 0);
    lemma_stands_byte(b, r, colon, 0);
    lemma_spaces_are_skipped(b, i, before);
    lemma_spaces_are_skipped(b, q, mid);
    assert(key =~= seq![0x22u8] + (letters_bytes(letters) + seq![0x22u8]));
    lemma_stands_apart(b, p, seq![0x22u8], letters_bytes(letters) + seq![0x22u8]);
    lemma_string_stands(b, p + 1, letters, Seq::empty());
    assert(Seq::<char>::empty() + letters_value(letters) =~= letters_value(letters));
    let next = lemma_padded_stands(b, r + 1, gap, s, then, depth);
    (q, (next - then.len()) as nat, next)
}

#[verifier::spinoff_prover]
proof fn lemma_members_stand(
    b: Seq<u8>,
    i: nat,
    members: Seq<((Seq<u8>, Seq<Letter>, Seq<u8>), (Seq<u8>, Spelling, Seq<u8>))>,
    depth: nat,
    done: Seq<(Seq<char>, Json)>,
)
    requires
        members.len() > 0,
        forall|k: int|
            0 <= k < members.len() ==> are_spaces((#[trigger] members[k]).0.0) && good_letters(
                members[k].0.1,
            ) && are_spaces(members[k].0.2) && are_spaces(members[k].1.0) && good(
                members[k].1.1,
                depth,
            ) && are_spaces(members[k].1.2),
        stands(b, i, members_bytes(members) + seq![0x7Du8]),
    ensures
        members_at(b, skip_space(b, i), depth, done) == Reading::Got(
            Json::Object(done + members_value(members)),
            (i + members_bytes(members).len() + 1) as nat,
        ),
        !at(b, skip_space(b, i), 0x7D),
    decreases depth, 5nat, members.len(),
{
    let close = seq![0x7Du8];
    let m = members[0];
    assert(are_spaces(members[0].0.0));
    let here = m.0.0 + string_bytes(m.0.1) + m.0.2 + seq![0x3Au8] + m.1.0 + bytes_of(m.1.1)
        + m.1.2;
    let rest = members.skip(1);
    let entry = (letters_value(m.0.1), value_of(m.1.1));
    if members.len() == 1 {
        lemma_stands_apart(b, i, here, close);
        lemma_stands_byte(b, i + here.len(), close, 0);
        let places = lemma_member_stands(b, i, m, depth);
        assert(members_value(rest) =~= Seq::empty());
        assert(done.push(entry) =~= done + members_value(members));
    } else {
        let comma = seq![0x2Cu8];
        let later = members_bytes(rest) + close;
        assert(members_bytes(members) + close =~= here + (comma + later));
        lemma_stands_apart(b, i, here, comma + later);
        lemma_stands_apart(b, i + here.len(), comma, later);
        lemma_stands_byte(b, i + here.len(), comma, 0);
        let places = lemma_member_stands(b, i, m, depth);
        assert forall|k: int|
            0 <= k < rest.len() implies are_spaces((#[trigger] rest[k]).0.0) && good_letters(
            rest[k].0.1,
        ) && are_spaces(rest[k].0.2) && are_spaces(rest[k].1.0) && good(rest[k].1.1, depth)
            && are_spaces(rest[k].1.2) by {
            assert(rest[k] == members[k + 1]);
        }
        lemma_members_stand(b, places.2 + 1, rest, depth, done.push(entry));
        assert(done.push(entry) + members_value(rest) =~= done + members_value(members));
    }
}

/// Every text that JSON allows is read as the value that it spells, whatever its
/// numbers, escapes and whitespace look like, nested at most 128 levels deep.
pub proof fn law_every_spelling_is_read(before: Seq<u8>, s: Spelling, then: Seq<u8>)
    requires
        good(s, 128),
        are_spaces(before),
        are_spaces(then),
    ensures
        text_value(before + bytes_of(s) + then) == Reading::Got(
            value_of(s),
            before.len() + bytes_of(s).len() + then.len(),
        ),
{
    let b = before + bytes_of(s) + then;
    assert(b.subrange(0, b.len() as int) =~= b);
    let next = lemma_padded_stands(b, 0, before, s, then, MAX_DEPTH as nat);
}

/// Every number of JSON is read: digits without a zero before others, with a minus
/// sign or none, with a fraction or none, and with an exponent or none, which may
/// have either letter and either sign. With a fraction or an exponent it is a float
/// of just that spelling.
pub proof fn law_every_number_is_read(n: Numeral)
    requires
        good_numeral(n),
    ensures
        text_value(numeral_bytes(n)) == Reading::Got(numeral_value(n), numeral_bytes(n).len()),
        n.fraction is Some || n.exponent is Some ==> text_value(numeral_bytes(n)) == Reading::Got(
            Json::Float(numeral_bytes(n).map_values(|byte: u8| byte as char)),
            numeral_bytes(n).len(),
        ),
{
    let none = Seq::<u8>::empty();
    law_every_spelling_is_read(none, Spelling::Number(n), none);
    assert(none + bytes_of(Spelling::Number(n)) + none =~= numeral_bytes(n));
}

/// Bytes that lie in a row.
proof fn lemma_in_a_row(b: Seq<u8>, i: int, j: int, k: int)
    requires
        0 <= i <= j <= k <= b.len(),
    ensures
        b.subrange(i, j) + b.subrange(j, k) == b.subrange(i, k),
{
    assert(b.subrange(i, j) + b.subrange(j, k) =~= b.subrange(i, k));
}

proof fn lemma_digits_spelled(b: Seq<u8>, i: nat, end: nat)
    requires
        digits_at(b, i) == Reading::Got((), end),
    ensures
        i < end <= b.len(),
        are_digits(b.subrange(i as int, end as int)),
{
    lemma_digits_end(b, i);
    lemma_digits_end(b, i + 1);
    let d = b.subrange(i as int, end as int);
    assert forall|k: int| 0 <= k < d.len() implies 0x30 <= #[trigger] d[k] <= 0x39 by {
        assert(d[k] == b[i + k]);
        assert(is_digit(b[i + k]));
    }
}

proof fn lemma_whole_spelled(b: Seq<u8>, i: nat, end: nat)
    requires
        integer_part(b, i) == Reading::Got((), end),
    ensures
        i < end <= b.len(),
        are_digits(b.subrange(i as int, end as int)),
        b[i as int] == 0x30 ==> end == i + 1,
{
    if at(b, i, 0x30) {
        let d = b.subrange(i as int, end as int);
        assert(d[0] == b[i as int]);
    } else {
        lemma_digits_spelled(b, i, end);
    }
}

proof fn lemma_fraction_spelled(b: Seq<u8>, i: nat, end: nat) -> (f: Option<Seq<u8>>)
    requires
        fraction_part(b, i) == Reading::Got((), end),
        i <= b.len(),
    ensures
        i <= end <= b.len(),
        f matches Some(d) ==> are_digits(d) && b.subrange(i as int, end as int) == seq![0x2Eu8] + d,
        f is None ==> end == i,
        f is Some ==> end > i,
{
    if at(b, i, 0x2E) {
        lemma_digits_spelled(b, i + 1, end);
        let d = b.subrange(i as int + 1, end as int);
        assert(b.subrange(i as int, end as int) =~= seq![0x2Eu8] + d);
        Some(d)
    } else {
        None
    }
}

proof fn lemma_exponent_spelled(b: Seq<u8>, i: nat, end: nat) -> (x: Option<
    (u8, Seq<u8>, Seq<u8>),
>)
    requires
        exponent_part(b, i) == Reading::Got((), end),
        i <= b.len(),
    ensures
        i <= end <= b.len(),
        x matches Some(e) ==> (e.0 == 0x65 || e.0 == 0x45) && (e.1 == Seq::<u8>::empty() || e.1
            == seq![0x2Bu8] || e.1 == seq![0x2Du8]) && are_digits(e.2) && b.subrange(
            i as int,
            end as int,
        ) == seq![e.0] + e.1 + e.2,
        x is None ==> end == i,
        x is Some ==> end > i,
{
    if at(b, i, 0x65) || at(b, i, 0x45) {
        let letter = b[i as int];
        if at(b, i + 1, 0x2B) || at(b, i + 1, 0x2D) {
            lemma_digits_spelled(b, i + 2, end);
            let sign = seq![b[i as int + 1]];
            let d = b.subrange(i as int + 2, end as int);
            assert(b.subrange(i as int, end as int) =~= seq![letter] + sign + d);
            Some((letter, sign, d))
        } else {
            lemma_digits_spelled(b, i + 1, end);
            let d = b.subrange(i as int + 1, end as int);
            assert(b.subrange(i as int, end as int) =~= seq![letter] + Seq::<u8>::empty() + d);
            Some((letter, Seq::empty(), d))
        }
    } else {
        None
    }
}

/// A number that is read is spelled right.
#[verifier::spinoff_prover]
proof fn lemma_number_spelled(b: Seq<u8>, i: nat, json: Json, end: nat) -> (n: Numeral)
    requires
        number_at(b, i) == Reading::Got(json, end),
    ensures
        good_numeral(n),
        i < end <= b.len(),
        numeral_bytes(n) == b.subrange(i as int, end as int),
        numeral_value(n) == json,
{
    let minus = at(b, i, 0x2D);
    let first = if minus {
        i + 1
    } else {
        i
    };
    let int_end = integer_part(b, first)->Got_1;
    lemma_whole_spelled(b, first, int_end);
    let frac_end = fraction_part(b, int_end)->Got_1;
    let fraction = lemma_fraction_spelled(b, int_end, frac_end);
    let exponent = lemma_exponent_spelled(b, frac_end, end);
    let whole = b.subrange(first as int, int_end as int);
    let n = Numeral { minus, whole, fraction, exponent };
    assert(whole[0] == b[first as int]);
    assert(good_numeral(n));
    assert(minus_bytes(n) =~= b.subrange(i as int, first as int));
    assert(fraction_bytes(n) =~= b.subrange(int_end as int, frac_end as int));
    assert(exponent_bytes(n) =~= b.subrange(frac_end as int, end as int));
    lemma_in_a_row(b, i as int, first as int, int_end as int);
    lemma_in_a_row(b, i as int, int_end as int, frac_end as int);
    lemma_in_a_row(b, i as int, frac_end as int, end as int);
    lemma_number_spelled_value(b, i, first, int_end, end, n);
    n
}

proof fn lemma_number_spelled_value(
    b: Seq<u8>,
    i: nat,
    first: nat,
    int_end: nat,
    end: nat,
    n: Numeral,
)
    requires
        good_numeral(n),
        i < int_end <= end <= b.len(),
        n.minus <==> at(b, i, 0x2D),
        first == if n.minus {
            i + 1
        } else {
            i
        },
        first < int_end,
        n.whole == b.subrange(first as int, int_end as int),
        numeral_bytes(n) == b.subrange(i as int, end as int),
        int_end == end <==> n.fraction is None && n.exponent is None,
    ensures
        numeral_value(n) == number_value(b, i, int_end, end),
{
    lemma_numeral_parts(n);
    assert(stands(b, first, n.whole));
    lemma_amount(b, first, n.whole);
    lemma_ascii_decodes(numeral_bytes(n));
}

proof fn lemma_ascii_cut(b: Seq<u8>, k: int)
    requires
        valid_utf8(b),
        0 <= k < b.len(),
        b[k] < 0x80,
    ensures
        is_cut(b, k),
        is_cut(b, k + 1),
{
    lemma_next_cut(b, k);
}

/// A code unit that is read is spelled by hexadecimal digits.
proof fn lemma_unit_spelled(b: Seq<u8>, i: nat) -> (h: Seq<u8>)
    requires
        unit_at(b, i) is Some,
    ensures
        are_hex(h),
        i + 6 <= b.len(),
        b.subrange(i as int, i as int + 6) == seq![0x5Cu8, 0x75] + h,
        unit_at(b, i) == Some(unit_of(h) as nat),
        0 <= unit_of(h) <= 0xFFFF,
        b[i as int + 5] < 0x80,
{
    let k = i + 2;
    assert(hex_value(b, k, 4) is Some);
    assert(hex_value(b, k, 3) is Some);
    assert(hex_value(b, k, 2) is Some);
    assert(hex_value(b, k, 1) is Some);
    let h = b.subrange(k as int, k as int + 4);
    assert(h[0] == b[k as int] && h[1] == b[k as int + 1] && h[2] == b[k as int + 2] && h[3]
        == b[k as int + 3]);
    assert(are_hex(h));
    assert(b.subrange(i as int, i as int + 6) =~= seq![0x5Cu8, 0x75] + h);
    assert(b.subrange(i as int, (i + 6) as int) == seq![0x5Cu8, 0x75] + h);
    lemma_unit_stands(b, i, h);
    h
}

/// A character of a string that is read is spelled right.
proof fn lemma_letter_spelled(b: Seq<u8>, i: nat) -> (l: Letter)
    requires
        valid_utf8(b),
        is_cut(b, i as int),
        i < b.len(),
        b[i as int] != 0x22,
        b[i as int] == 0x5C ==> escape_at(b, i) is Got,
        b[i as int] >= 0x20,
    ensures
        good_letter(l),
        i + letter_bytes(l).len() <= b.len(),
        letter_bytes(l).len() > 0,
        letter_bytes(l) == b.subrange(i as int, (i + letter_bytes(l).len()) as int),
        is_cut(b, (i + letter_bytes(l).len()) as int),
{
    if b[i as int] == 0x5C {
        let letter = b[i as int + 1];
        if letter == 0x75 {
            let h = lemma_unit_spelled(b, i);
            lemma_ascii_cut(b, i as int + 5);
            if 0xD800 <= unit_of(h) <= 0xDBFF {
                let low = lemma_unit_spelled(b, i + 6);
                lemma_ascii_cut(b, i as int + 11);
                let l = Letter::Pair(h, low);
                assert(letter_bytes(l) =~= b.subrange(i as int, i as int + 12));
                l
            } else {
                Letter::Unit(h)
            }
        } else {
            let l = Letter::Short(letter);
            assert(letter_bytes(l) =~= b.subrange(i as int, i as int + 2));
            lemma_ascii_cut(b, i as int + 1);
            l
        }
    } else {
        let rest = b.skip(i as int);
        let width = length_of_first_scalar(rest);
        let c = decode_first_scalar(rest) as char;
        lemma_next_cut(b, i as int);
        lemma_one_scalar(rest);
        vstd::utf8::decode_utf8_encode_utf8(rest.take(width));
        assert(rest.take(width) =~= b.subrange(i as int, i + width));
        assert(encode_utf8(seq![c]) == rest.take(width));
        lemma_first_letter(rest, c);
        assert(rest[0] == b[i as int]);
        Letter::Plain(c)
    }
}

/// A string that is read is spelled right.
proof fn lemma_string_spelled(
    b: Seq<u8>,
    i: nat,
    done: Seq<char>,
    text: Seq<char>,
    end: nat,
) -> (letters: Seq<Letter>)
    requires
        valid_utf8(b),
        is_cut(b, i as int),
        string_at(b, i, done) == Reading::Got(text, end),
    ensures
        good_letters(letters),
        i < end <= b.len(),
        letters_bytes(letters) + seq![0x22u8] == b.subrange(i as int, end as int),
        text == done + letters_value(letters),
        is_cut(b, end as int),
    decreases b.len() - i,
{
    if b[i as int] == 0x22 {
        lemma_ascii_cut(b, i as int);
        let none = Seq::<Letter>::empty();
        assert(letters_bytes(none) + seq![0x22u8] =~= b.subrange(i as int, end as int));
        assert(done + letters_value(none) =~= done);
        none
    } else {
        let l = lemma_letter_spelled(b, i);
        let t = letter_bytes(l);
        lemma_letter_stands(b, i, l, done);
        let next = i + t.len();
        let rest = lemma_string_spelled(b, next, done.push(letter_value(l)), text, end);
        let letters = seq![l] + rest;
        assert(letters.skip(1) =~= rest);
        assert(letters_bytes(letters) == t + letters_bytes(rest));
        assert(letters_bytes(letters) + seq![0x22u8] =~= t + (letters_bytes(rest)
            + seq![0x22u8]));
        assert(b.subrange(i as int, end as int) =~= b.subrange(i as int, next as int)
            + b.subrange(next as int, end as int));
        assert(done.push(letter_value(l)) + letters_value(rest) =~= done + letters_value(letters));
        assert forall|k: int| 0 <= k < letters.len() implies good_letter(#[trigger] letters[k]) by {
            if k > 0 {
                assert(letters[k] == rest[k - 1]);
            }
        }
        letters
    }
}

/// What is skipped is whitespace.
pub(crate) proof fn lemma_skipped_spaces(b: Seq<u8>, i: nat)
    requires
        valid_utf8(b),
        is_cut(b, i as int),
    ensures
        i <= skip_space(b, i) <= b.len(),
        are_spaces(b.subrange(i as int, skip_space(b, i) as int)),
        is_cut(b, skip_space(b, i) as int),
    decreases b.len() - i,
{
    let to = skip_space(b, i);
    if i < b.len() && is_space(b[i as int]) {
        lemma_ascii_cut(b, i as int);
        lemma_skipped_spaces(b, i + 1);
        let w = b.subrange(i as int, to as int);
        let later = b.subrange(i as int + 1, to as int);
        assert forall|k: int| 0 <= k < w.len() implies (#[trigger] w[k] == 0x20 || w[k] == 0x09
            || w[k] == 0x0A || w[k] == 0x0D) by {
            if k > 0 {
                assert(w[k] == later[k - 1]);
            }
        }
    }
}

proof fn lemma_word_spelled(b: Seq<u8>, i: nat, word: Seq<u8>)
    requires
        valid_utf8(b),
        word_at(b, i, word),
        word.len() > 0,
        word.last() < 0x80,
    ensures
        is_cut(b, (i + word.len()) as int),
{
    let n = word.len();
    assert(b.subrange(i as int, (i + n) as int)[n - 1] == b[i + n - 1]);
    lemma_ascii_cut(b, i + n - 1);
}

proof fn lemma_number_cut(b: Seq<u8>, i: nat, end: nat, n: Numeral)
    requires
        valid_utf8(b),
        good_numeral(n),
        i < end <= b.len(),
        numeral_bytes(n) == b.subrange(i as int, end as int),
    ensures
        is_cut(b, end as int),
{
    lemma_numeral_parts(n);
    let t = numeral_bytes(n);
    assert(t[t.len() - 1] == b[end - 1]);
    lemma_ascii_cut(b, end - 1);
}

proof fn lemma_letters_wrapped(b: Seq<u8>, i: nat, end: nat, letters: Seq<Letter>)
    requires
        i + 1 < end <= b.len(),
        b[i as int] == 0x22,
        letters_bytes(letters) + seq![0x22u8] == b.subrange(i as int + 1, end as int),
    ensures
        bytes_of(Spelling::Text(letters)) == b.subrange(i as int, end as int),
        Seq::<char>::empty() + letters_value(letters) == letters_value(letters),
{
    assert(Seq::<char>::empty() + letters_value(letters) =~= letters_value(letters));
    assert(string_bytes(letters) =~= seq![0x22u8] + (letters_bytes(letters) + seq![0x22u8]));
    assert(b.subrange(i as int, end as int) =~= seq![0x22u8] + b.subrange(
        i as int + 1,
        end as int,
    ));
}

proof fn lemma_gap_wrapped(b: Seq<u8>, i: nat, next: nat, depth: nat)
    requires
        i + 1 <= next < b.len(),
        depth > 0,
        are_spaces(b.subrange(i as int + 1, next as int)),
    ensures
        ({
            let gap = b.subrange(i as int + 1, next as int);
            let all = b.subrange(i as int, next as int + 1);
            let list = Spelling::Array(gap, Seq::empty());
            let record = Spelling::Object(gap, Seq::empty());
            &&& b[i as int] == 0x5B && b[next as int] == 0x5D ==> bytes_of(list) == all
            &&& b[i as int] == 0x7B && b[next as int] == 0x7D ==> bytes_of(record) == all
            &&& good(list, depth) && value_of(list) == Json::Array(Seq::empty())
            &&& good(record, depth) && value_of(record) == Json::Object(Seq::empty())
        }),
{
    let gap = b.subrange(i as int + 1, next as int);
    let all = b.subrange(i as int, next as int + 1);
    assert(all =~= seq![b[i as int]] + gap + seq![b[next as int]]);
    let list = Spelling::Array(gap, Seq::empty());
    let record = Spelling::Object(gap, Seq::empty());
    assert(good(list, depth));
    assert(good(record, depth));
    assert(bytes_of(list) == seq![0x5Bu8] + gap + seq![0x5Du8]);
    assert(bytes_of(record) == seq![0x7Bu8] + gap + seq![0x7Du8]);
    assert(items_value(Seq::empty()) =~= Seq::empty());
    assert(members_value(Seq::empty()) =~= Seq::empty());
}

proof fn lemma_items_wrapped(
    b: Seq<u8>,
    i: nat,
    end: nat,
    items: Seq<(Seq<u8>, Spelling, Seq<u8>)>,
    depth: nat,
)
    requires
        depth > 0,
        i + 1 < end <= b.len(),
        b[i as int] == 0x5B,
        items.len() > 0,
        forall|k: int|
            0 <= k < items.len() ==> are_spaces((#[trigger] items[k]).0) && good(
                items[k].1,
                (depth - 1) as nat,
            ) && are_spaces(items[k].2),
        items_bytes(items) + seq![0x5Du8] == b.subrange(i as int + 1, end as int),
    ensures
        bytes_of(Spelling::Array(Seq::empty(), items)) == b.subrange(i as int, end as int),
        good(Spelling::Array(Seq::empty(), items), depth),
        Seq::<Json>::empty() + items_value(items) == items_value(items),
{
    assert(Seq::<Json>::empty() + items_value(items) =~= items_value(items));
    let s = Spelling::Array(Seq::empty(), items);
    assert(bytes_of(s) =~= seq![0x5Bu8] + (items_bytes(items) + seq![0x5Du8]));
    assert(b.subrange(i as int, end as int) =~= seq![0x5Bu8] + b.subrange(
        i as int + 1,
        end as int,
    ));
}

proof fn lemma_members_wrapped(
    b: Seq<u8>,
    i: nat,
    end: nat,
    members: Seq<((Seq<u8>, Seq<Letter>, Seq<u8>), (Seq<u8>, Spelling, Seq<u8>))>,
    depth: nat,
)
    requires
        depth > 0,
        i + 1 < end <= b.len(),
        b[i as int] == 0x7B,
        members.len() > 0,
        forall|k: int|
            0 <= k < members.len() ==> are_spaces((#[trigger] members[k]).0.0) && good_letters(
                members[k].0.1,
            ) && are_spaces(members[k].0.2) && are_spaces(members[k].1.0) && good(
                members[k].1.1,
                (depth - 1) as nat,
            ) && are_spaces(members[k].1.2),
        members_bytes(members) + seq![0x7Du8] == b.subrange(i as int + 1, end as int),
    ensures
        bytes_of(Spelling::Object(Seq::empty(), members)) == b.subrange(i as int, end as int),
        good(Spelling::Object(Seq::empty(), members), depth),
        Seq::<(Seq<char>, Json)>::empty() + members_value(members) == members_value(members),
{
    assert(Seq::<(Seq<char>, Json)>::empty() + members_value(members) =~= members_value(members));
    let s = Spelling::Object(Seq::empty(), members);
    assert(bytes_of(s) =~= seq![0x7Bu8] + (members_bytes(members) + seq![0x7Du8]));
    assert(b.subrange(i as int, end as int) =~= seq![0x7Bu8] + b.subrange(
        i as int + 1,
        end as int,
    ));
}

/// A value that is read is spelled right.
#[verifier::spinoff_prover]
pub(crate) proof fn lemma_value_spelled(b: Seq<u8>, i: nat, depth: nat, json: Json, end: nat) -> (s: Spelling)
    requires
        valid_utf8(b),
        is_cut(b, i as int),
        value_at(b, i, depth) == Reading::Got(json, end),
    ensures
        good(s, depth),
        i < end <= b.len(),
        bytes_of(s) == b.subrange(i as int, end as int),
        value_of(s) == json,
        is_cut(b, end as int),
    decreases depth, 0nat, 0nat,
{
    let first = b[i as int];
    if first == 0x22 {
        lemma_ascii_cut(b, i as int);
        let letters = lemma_string_spelled(b, i + 1, Seq::empty(), json->Str_0, end);
        lemma_letters_wrapped(b, i, end, letters);
        Spelling::Text(letters)
    } else if first == 0x7B {
        lemma_ascii_cut(b, i as int);
        lemma_skipped_spaces(b, i + 1);
        let next = skip_space(b, i + 1);
        if at(b, next, 0x7D) {
            lemma_ascii_cut(b, next as int);
            let gap = b.subrange(i as int + 1, next as int);
            lemma_gap_wrapped(b, i, next, depth);
            Spelling::Object(gap, Seq::empty())
        } else {
            let members = lemma_members_spelled(
                b,
                i + 1,
                (depth - 1) as nat,
                Seq::empty(),
                json,
                end,
            );
            lemma_members_wrapped(b, i, end, members, depth);
            Spelling::Object(Seq::empty(), members)
        }
    } else if first == 0x5B {
        lemma_ascii_cut(b, i as int);
        lemma_skipped_spaces(b, i + 1);
        let next = skip_space(b, i + 1);
        if at(b, next, 0x5D) {
            lemma_ascii_cut(b, next as int);
            let gap = b.subrange(i as int + 1, next as int);
            lemma_gap_wrapped(b, i, next, depth);
            Spelling::Array(gap, Seq::empty())
        } else {
            let items = lemma_items_spelled(
                b,
                i + 1,
                (depth - 1) as nat,
                Seq::empty(),
                json,
                end,
            );
            lemma_items_wrapped(b, i, end, items, depth);
            Spelling::Array(Seq::empty(), items)
        }
    } else if first == 0x2D || is_digit(first) {
        let n = lemma_number_spelled(b, i, json, end);
        lemma_number_cut(b, i, end, n);
        Spelling::Number(n)
    } else if word_at(b, i, seq![0x74, 0x72, 0x75, 0x65]) {
        lemma_word_spelled(b, i, seq![0x74, 0x72, 0x75, 0x65]);
        Spelling::Bool(true)
    } else if word_at(b, i, seq![0x66, 0x61, 0x6C, 0x73, 0x65]) {
        lemma_word_spelled(b, i, seq![0x66, 0x61, 0x6C, 0x73, 0x65]);
        Spelling::Bool(false)
    } else {
        lemma_word_spelled(b, i, seq![0x6E, 0x75, 0x6C, 0x6C]);
        Spelling::Null
    }
}

/// Elements that are read are spelled right.
#[verifier::spinoff_prover]
proof fn lemma_items_spelled(
    b: Seq<u8>,
    i: nat,
    depth: nat,
    done: Seq<Json>,
    json: Json,
    end: nat,
) -> (items: Seq<(Seq<u8>, Spelling, Seq<u8>)>)
    requires
        valid_utf8(b),
        is_cut(b, i as int),
        items_at(b, skip_space(b, i), depth, done) == Reading::Got(json, end),
    ensures
        items.len() > 0,
        forall|k: int|
            0 <= k < items.len() ==> are_spaces((#[trigger] items[k]).0) && good(
                items[k].1,
                depth,
            ) && are_spaces(items[k].2),
        i < end <= b.len(),
        items_bytes(items) + seq![0x5Du8] == b.subrange(i as int, end as int),
        json == Json::Array(done + items_value(items)),
        is_cut(b, end as int),
    decreases depth, 1nat, b.len() - i,
{
    let from = skip_space(b, i);
    lemma_skipped_spaces(b, i);
    let v = value_at(b, from, depth)->Got_0;
    let value_end = value_at(b, from, depth)->Got_1;
    let s = lemma_value_spelled(b, from, depth, v, value_end);
    lemma_skipped_spaces(b, value_end);
    let next = skip_space(b, value_end);
    let before = b.subrange(i as int, from as int);
    let then = b.subrange(value_end as int, next as int);
    let item = (before, s, then);
    let here = before + bytes_of(s) + then;
    assert(here =~= b.subrange(i as int, next as int));
    lemma_ascii_cut(b, next as int);
    if b[next as int] == 0x5D {
        let items = seq![item];
        assert(items.skip(1) =~= Seq::empty());
        assert(items_value(items.skip(1)) =~= Seq::empty());
        assert(items_bytes(items) + seq![0x5Du8] =~= b.subrange(i as int, end as int));
        assert(done.push(v) =~= done + items_value(items));
        items
    } else {
        let rest = lemma_items_spelled(b, next + 1, depth, done.push(v), json, end);
        let items = seq![item] + rest;
        assert(items.skip(1) =~= rest);
        assert(items_bytes(items) + seq![0x5Du8] =~= here + seq![0x2Cu8] + (items_bytes(rest)
            + seq![0x5Du8]));
        assert(b.subrange(i as int, end as int) =~= b.subrange(i as int, next as int)
            + seq![0x2Cu8] + b.subrange(next as int + 1, end as int));
        assert(done.push(v) + items_value(rest) =~= done + items_value(items));
        assert forall|k: int|
            0 <= k < items.len() implies are_spaces((#[trigger] items[k]).0) && good(
            items[k].1,
            depth,
        ) && are_spaces(items[k].2) by {
            if k > 0 {
                assert(items[k] == rest[k - 1]);
            }
        }
        items
    }
}

/// Members that are read are spelled right.
#[verifier::spinoff_prover]
proof fn lemma_members_spelled(
    b: Seq<u8>,
    i: nat,
    depth: nat,
    done: Seq<(Seq<char>, Json)>,
    json: Json,
    end: nat,
) -> (members: Seq<((Seq<u8>, Seq<Letter>, Seq<u8>), (Seq<u8>, Spelling, Seq<u8>))>)
    requires
        valid_utf8(b),
        is_cut(b, i as int),
        members_at(b, skip_space(b, i), depth, done) == Reading::Got(json, end),
    ensures
        members.len() > 0,
        forall|k: int|
            0 <= k < members.len() ==> are_spaces((#[trigger] members[k]).0.0) && good_letters(
                members[k].0.1,
            ) && are_spaces(members[k].0.2) && are_spaces(members[k].1.0) && good(
                members[k].1.1,
                depth,
            ) && are_spaces(members[k].1.2),
        i < end <= b.len(),
        members_bytes(members) + seq![0x7Du8] == b.subrange(i as int, end as int),
        json == Json::Object(done + members_value(members)),
        is_cut(b, end as int),
    decreases depth, 1nat, b.len() - i,
{
    let p = skip_space(b, i);
    lemma_skipped_spaces(b, i);
    lemma_ascii_cut(b, p as int);
    let key = string_at(b, p + 1, Seq::empty())->Got_0;
    let q = string_at(b, p + 1, Seq::empty())->Got_1;
    let letters = lemma_string_spelled(b, p + 1, Seq::empty(), key, q);
    assert(Seq::<char>::empty() + letters_value(letters) =~= letters_value(letters));
    lemma_skipped_spaces(b, q);
    let colon = skip_space(b, q);
    lemma_ascii_cut(b, colon as int);
    lemma_skipped_spaces(b, colon + 1);
    let from = skip_space(b, colon + 1);
    let v = value_at(b, from, depth)->Got_0;
    let value_end = value_at(b, from, depth)->Got_1;
    let s = lemma_value_spelled(b, from, depth, v, value_end);
    lemma_skipped_spaces(b, value_end);
    let next = skip_space(b, value_end);
    lemma_ascii_cut(b, next as int);
    let m = (
        (b.subrange(i as int, p as int), letters, b.subrange(q as int, colon as int)),
        (
            b.subrange(colon as int + 1, from as int),
            s,
            b.subrange(value_end as int, next as int),
        ),
    );
    lemma_member_bytes(b, i, p, q, colon, from, value_end, next, letters, s);
    let entry = (key, v);
    if b[next as int] == 0x7D {
        lemma_last_member(b, i, next, m, done);
        seq![m]
    } else {
        let rest = lemma_members_spelled(b, next + 1, depth, done.push(entry), json, end);
        lemma_more_members(b, i, next, end, m, rest, done, depth);
        seq![m] + rest
    }
}

/// The bytes of a member, from the whitespace before it to that after it.
pub open spec fn member_bytes(
    m: ((Seq<u8>, Seq<Letter>, Seq<u8>), (Seq<u8>, Spelling, Seq<u8>)),
) -> Seq<u8> {
    m.0.0 + string_bytes(m.0.1) + m.0.2 + seq![0x3Au8] + m.1.0 + bytes_of(m.1.1) + m.1.2
}

proof fn lemma_last_member(
    b: Seq<u8>,
    i: nat,
    next: nat,
    m: ((Seq<u8>, Seq<Letter>, Seq<u8>), (Seq<u8>, Spelling, Seq<u8>)),
    done: Seq<(Seq<char>, Json)>,
)
    requires
        i <= next < b.len(),
        b[next as int] == 0x7D,
        member_bytes(m) == b.subrange(i as int, next as int),
    ensures
        members_bytes(seq![m]) + seq![0x7Du8] == b.subrange(i as int, next as int + 1),
        done.push((letters_value(m.0.1), value_of(m.1.1))) == done + members_value(seq![m]),
{
    let members = seq![m];
    assert(members.skip(1) =~= Seq::empty());
    assert(members_value(members.skip(1)) =~= Seq::empty());
    assert(members_bytes(members) == member_bytes(m));
    assert(members_bytes(members) + seq![0x7Du8] =~= b.subrange(i as int, next as int + 1));
    assert(done.push((letters_value(m.0.1), value_of(m.1.1))) =~= done + members_value(members));
}

proof fn lemma_more_members(
    b: Seq<u8>,
    i: nat,
    next: nat,
    end: nat,
    m: ((Seq<u8>, Seq<Letter>, Seq<u8>), (Seq<u8>, Spelling, Seq<u8>)),
    rest: Seq<((Seq<u8>, Seq<Letter>, Seq<u8>), (Seq<u8>, Spelling, Seq<u8>))>,
    done: Seq<(Seq<char>, Json)>,
    depth: nat,
)
    requires
        i <= next < end <= b.len(),
        next + 1 <= end,
        b[next as int] == 0x2C,
        member_bytes(m) == b.subrange(i as int, next as int),
        rest.len() > 0,
        members_bytes(rest) + seq![0x7Du8] == b.subrange(next as int + 1, end as int),
        are_spaces(m.0.0) && good_letters(m.0.1) && are_spaces(m.0.2) && are_spaces(m.1.0) && good(
            m.1.1,
            depth,
        ) && are_spaces(m.1.2),
        forall|k: int|
            0 <= k < rest.len() ==> are_spaces((#[trigger] rest[k]).0.0) && good_letters(
                rest[k].0.1,
            ) && are_spaces(rest[k].0.2) && are_spaces(rest[k].1.0) && good(rest[k].1.1, depth)
                && are_spaces(rest[k].1.2),
    ensures
        ({
            let members = seq![m] + rest;
            &&& members_bytes(members) + seq![0x7Du8] == b.subrange(i as int, end as int)
            &&& done.push((letters_value(m.0.1), value_of(m.1.1))) + members_value(rest) == done
                + members_value(members)
            &&& forall|k: int|
                0 <= k < members.len() ==> are_spaces((#[trigger] members[k]).0.0) && good_letters(
                    members[k].0.1,
                ) && are_spaces(members[k].0.2) && are_spaces(members[k].1.0) && good(
                    members[k].1.1,
                    depth,
                ) && are_spaces(members[k].1.2)
        }),
{
    let members = seq![m] + rest;
    assert(members.skip(1) =~= rest);
    assert(members_bytes(members) == member_bytes(m) + seq![0x2Cu8] + members_bytes(rest));
    assert(members_bytes(members) + seq![0x7Du8] =~= member_bytes(m) + seq![0x2Cu8] + (
    members_bytes(rest) + seq![0x7Du8]));
    assert(b.subrange(i as int, end as int) =~= b.subrange(i as int, next as int) + seq![0x2Cu8]
        + b.subrange(next as int + 1, end as int));
    assert(done.push((letters_value(m.0.1), value_of(m.1.1))) + members_value(rest) =~= done
        + members_value(members));
    assert forall|k: int|
        0 <= k < members.len() implies are_spaces((#[trigger] members[k]).0.0) && good_letters(
        members[k].0.1,
    ) && are_spaces(members[k].0.2) && are_spaces(members[k].1.0) && good(members[k].1.1, depth)
        && are_spaces(members[k].1.2) by {
        if k > 0 {
            assert(members[k] == rest[k - 1]);
        }
    }
}

/// The bytes of a member lie in a row.
proof fn lemma_member_bytes(
    b: Seq<u8>,
    i: nat,
    p: nat,
    q: nat,
    colon: nat,
    from: nat,
    value_end: nat,
    next: nat,
    letters: Seq<Letter>,
    s: Spelling,
)
    requires
        i <= p < q <= colon < from <= value_end <= next <= b.len(),
        b[p as int] == 0x22,
        b[colon as int] == 0x3A,
        letters_bytes(letters) + seq![0x22u8] == b.subrange(p as int + 1, q as int),
        bytes_of(s) == b.subrange(from as int, value_end as int),
    ensures
        b.subrange(i as int, p as int) + string_bytes(letters) + b.subrange(q as int, colon as int)
            + seq![0x3Au8] + b.subrange(colon as int + 1, from as int) + bytes_of(s) + b.subrange(
            value_end as int,
            next as int,
        ) == b.subrange(i as int, next as int),
{
    assert(string_bytes(letters) =~= seq![0x22u8] + (letters_bytes(letters) + seq![0x22u8]));
    assert(string_bytes(letters) =~= b.subrange(p as int, q as int));
    assert(b.subrange(i as int, p as int) + string_bytes(letters) =~= b.subrange(
        i as int,
        q as int,
    ));
    assert(b.subrange(i as int, q as int) + b.subrange(q as int, colon as int) =~= b.subrange(
        i as int,
        colon as int,
    ));
    assert(b.subrange(i as int, colon as int) + seq![0x3Au8] =~= b.subrange(
        i as int,
        colon as int + 1,
    ));
    assert(b.subrange(i as int, colon as int + 1) + b.subrange(colon as int + 1, from as int)
        =~= b.subrange(i as int, from as int));
    assert(b.subrange(i as int, from as int) + bytes_of(s) =~= b.subrange(
        i as int,
        value_end as int,
    ));
    assert(b.subrange(i as int, value_end as int) + b.subrange(value_end as int, next as int)
        =~= b.subrange(i as int, next as int));
}

/// Nothing else is read: a text that is accepted is spelled as JSON allows, nested
/// at most 128 levels deep, with nothing but whitespace around it, and it is read as
/// the value that it spells.
pub proof fn law_only_spellings_are_read(b: Seq<u8>) -> (parts: (Seq<u8>, Spelling, Seq<u8>))
    requires
        valid_utf8(b),
        text_value(b) is Got,
    ensures
        are_spaces(parts.0),
        good(parts.1, 128),
        are_spaces(parts.2),
        b == parts.0 + bytes_of(parts.1) + parts.2,
        text_value(b) == Reading::Got(value_of(parts.1), b.len()),
{
    if b.len() > 0 {
        assert(valid_first_scalar(b));
        assert(!vstd::utf8::is_continuation_byte(b[0]));
    }
    assert(is_cut(b, 0));
    lemma_skipped_spaces(b, 0);
    let from = skip_space(b, 0);
    let v = value_at(b, from, MAX_DEPTH as nat)->Got_0;
    let end = value_at(b, from, MAX_DEPTH as nat)->Got_1;
    let s = lemma_value_spelled(b, from, MAX_DEPTH as nat, v, end);
    lemma_skipped_spaces(b, end);
    let before = b.subrange(0, from as int);
    let then = b.subrange(end as int, b.len() as int);
    assert(b =~= before + bytes_of(s) + then);
    (before, s, then)
}

} // verus!
