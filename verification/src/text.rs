//! UTF-8 text: decoding, cutting, and order by bytes.

use vstd::prelude::*;
use vstd::string::{StringExecFns, StringSliceAdditionalSpecFns};
use vstd::utf8::{
    decode_first_scalar, decode_utf8, encode_scalar, encode_utf8, is_char_boundary,
    is_continuation_byte, is_scalar, length_of_first_scalar, pop_first_scalar, valid_first_scalar,
    valid_utf8,
};

verus! {

/// Calls `std::str::from_utf8`, which checks that the bytes are well-formed
/// UTF-8 and, if they are, returns them as a string slice over the same bytes.
#[verifier::external_body]
pub(crate) fn decode(bytes: &[u8]) -> (text: Option<&str>)
    ensures
        text is Some <==> valid_utf8(bytes@),
        text matches Some(t) ==> t@ == decode_utf8(bytes@),
{
    std::str::from_utf8(bytes).ok()
}

/// The length of the longest well-formed prefix, cut between characters.
pub open spec fn valid_prefix(bytes: Seq<u8>) -> nat
    decreases bytes.len(),
{
    if bytes.len() > 0 && valid_first_scalar(bytes) {
        length_of_first_scalar(bytes) as nat + valid_prefix(pop_first_scalar(bytes))
    } else {
        0
    }
}

/// The width of the character that starts at `i`, or 0 if none does.
pub(crate) fn scalar_width(bytes: &[u8], i: usize) -> (width: usize)
    requires
        i < bytes@.len(),
    ensures
        width == if valid_first_scalar(bytes@.skip(i as int)) {
            length_of_first_scalar(bytes@.skip(i as int))
        } else {
            0
        },
        width <= bytes@.len() - i,
{
    let ghost rest = bytes@.skip(i as int);
    let left: usize = bytes.len() - i;
    let b0: u8 = bytes[i];
    if b0 <= 0x7f {
        assert((b0 & 0x7F) as u32 <= 0x7f) by (bit_vector);
        return 1;
    }
    if 0xc0 <= b0 && b0 <= 0xdf && left >= 2 {
        let b1: u8 = bytes[i + 1];
        let code: u32 = (((b0 & 0x1F) as u32) << 6) | ((b1 & 0x3f) as u32);
        if 0x80 <= b1 && b1 <= 0xbf && code >= 0x80 {
            assert(code <= 0x7ff) by (bit_vector)
                requires
                    code == (((b0 & 0x1F) as u32) << 6) | ((b1 & 0x3f) as u32),
            ;
            assert(rest[0] == b0 && rest[1] == b1);
            return 2;
        }
        assert(rest[0] == b0 && rest[1] == b1);
        return 0;
    }
    if 0xe0 <= b0 && b0 <= 0xef && left >= 3 {
        let b1: u8 = bytes[i + 1];
        let b2: u8 = bytes[i + 2];
        let code: u32 = (((b0 & 0x0F) as u32) << 12) | (((b1 & 0x3f) as u32) << 6) | ((b2
            & 0x3f) as u32);
        assert(rest[0] == b0 && rest[1] == b1 && rest[2] == b2);
        if 0x80 <= b1 && b1 <= 0xbf && 0x80 <= b2 && b2 <= 0xbf && code >= 0x800 && !(0xD800
            <= code && code <= 0xDFFF) {
            return 3;
        }
        return 0;
    }
    if 0xf0 <= b0 && b0 <= 0xf7 && left >= 4 {
        let b1: u8 = bytes[i + 1];
        let b2: u8 = bytes[i + 2];
        let b3: u8 = bytes[i + 3];
        let code: u32 = (((b0 & 0x07) as u32) << 18) | (((b1 & 0x3f) as u32) << 12) | (((b2
            & 0x3f) as u32) << 6) | ((b3 & 0x3f) as u32);
        assert(rest[0] == b0 && rest[1] == b1 && rest[2] == b2 && rest[3] == b3);
        if 0x80 <= b1 && b1 <= 0xbf && 0x80 <= b2 && b2 <= 0xbf && 0x80 <= b3 && b3 <= 0xbf
            && 0x10000 <= code && code <= 0x10ffff {
            return 4;
        }
        return 0;
    }
    assert(rest[0] == b0);
    0
}

/// The index up to which the bytes are well-formed UTF-8.
pub(crate) fn valid_up_to(bytes: &[u8]) -> (n: usize)
    ensures
        n == valid_prefix(bytes@),
        n <= bytes@.len(),
{
    let mut i: usize = 0;
    assert(bytes@.skip(0) =~= bytes@);
    while i < bytes.len()
        invariant_except_break
            i <= bytes@.len(),
            valid_prefix(bytes@) == i + valid_prefix(bytes@.skip(i as int)),
        ensures
            i <= bytes@.len(),
            valid_prefix(bytes@) == i,
        decreases bytes@.len() - i,
    {
        let width: usize = scalar_width(bytes, i);
        if width == 0 {
            break;
        }
        assert(pop_first_scalar(bytes@.skip(i as int)) =~= bytes@.skip(i + width));
        i = i + width;
    }
    i
}

/// The well-formed prefix ends where the documentation of decoding errors puts
/// it: the prefix decodes, and no longer one does.
pub proof fn law_valid_prefix_is_longest(bytes: Seq<u8>)
    ensures
        valid_prefix(bytes) <= bytes.len(),
        valid_utf8(bytes.take(valid_prefix(bytes) as int)),
        forall|n: int|
            valid_prefix(bytes) < n <= bytes.len() ==> !valid_utf8(#[trigger] bytes.take(n)),
    decreases bytes.len(),
{
    if bytes.len() > 0 && valid_first_scalar(bytes) {
        let rest = pop_first_scalar(bytes);
        let width = length_of_first_scalar(bytes);
        law_valid_prefix_is_longest(rest);
        let n = valid_prefix(bytes) as int;
        let head = bytes.take(n);
        assert(valid_first_scalar(head));
        assert(pop_first_scalar(head) =~= rest.take(n - width));
        assert forall|m: int| n < m <= bytes.len() implies !valid_utf8(#[trigger] bytes.take(m)) by {
            let longer = bytes.take(m);
            if valid_utf8(longer) {
                assert(valid_first_scalar(longer));
                assert(pop_first_scalar(longer) =~= rest.take(m - width));
                assert(!valid_utf8(rest.take(m - width)));
            }
        }
    } else {
        assert forall|m: int| 0 < m <= bytes.len() implies !valid_utf8(#[trigger] bytes.take(m)) by {
            let longer = bytes.take(m);
            if valid_utf8(longer) {
                assert(valid_first_scalar(longer));
                assert(longer[0] == bytes[0]);
                if longer.len() > 1 {
                    assert(longer[1] == bytes[1]);
                }
                if longer.len() > 2 {
                    assert(longer[2] == bytes[2]);
                }
                if longer.len() > 3 {
                    assert(longer[3] == bytes[3]);
                }
                assert(valid_first_scalar(bytes));
            }
        }
    }
}

/// A place between two characters, or at either end.
pub open spec fn is_cut(bytes: Seq<u8>, i: int) -> bool {
    0 <= i <= bytes.len() && (i < bytes.len() ==> !is_continuation_byte(bytes[i]))
}

/// Both sides of a cut are well-formed.
pub(crate) proof fn lemma_cut(bytes: Seq<u8>, i: int)
    requires
        valid_utf8(bytes),
        is_cut(bytes, i),
    ensures
        is_char_boundary(bytes, i),
        valid_utf8(bytes.take(i)),
        valid_utf8(bytes.skip(i)),
        decode_utf8(bytes) == decode_utf8(bytes.take(i)) + decode_utf8(bytes.skip(i)),
{
    if i < bytes.len() {
        vstd::utf8::is_char_boundary_iff_not_is_continuation_byte(bytes, i);
    } else {
        vstd::utf8::is_char_boundary_start_end_of_seq(bytes);
    }
    vstd::utf8::valid_utf8_split(bytes, i);
    vstd::utf8::decode_utf8_split(bytes, i);
    assert(bytes.take(i) =~= bytes.subrange(0, i));
    assert(bytes.skip(i) =~= bytes.subrange(i, bytes.len() as int));
}

/// The place after a character that starts at a cut is a cut.
pub(crate) proof fn lemma_next_cut(bytes: Seq<u8>, i: int)
    requires
        valid_utf8(bytes),
        is_cut(bytes, i),
        i < bytes.len(),
    ensures
        valid_first_scalar(bytes.skip(i)),
        1 <= length_of_first_scalar(bytes.skip(i)) <= bytes.len() - i,
        is_cut(bytes, i + length_of_first_scalar(bytes.skip(i))),
        decode_utf8(bytes.skip(i)) == seq![decode_first_scalar(bytes.skip(i)) as char]
            + decode_utf8(bytes.skip(i + length_of_first_scalar(bytes.skip(i)))),
        bytes[i] <= 0x7f ==> length_of_first_scalar(bytes.skip(i)) == 1,
{
    lemma_cut(bytes, i);
    let rest = bytes.skip(i);
    let width = length_of_first_scalar(rest);
    assert(rest[0] == bytes[i]);
    assert(pop_first_scalar(rest) =~= bytes.skip(i + width));
    if i + width < bytes.len() {
        let after = pop_first_scalar(rest);
        assert(valid_utf8(after));
        assert(valid_first_scalar(after));
        assert(after[0] == bytes[i + width]);
    }
}

/// The first character's bytes decode to that character.
pub(crate) proof fn lemma_one_scalar(bytes: Seq<u8>)
    requires
        valid_first_scalar(bytes),
    ensures
        decode_utf8(bytes.take(length_of_first_scalar(bytes))) == seq![
            decode_first_scalar(bytes) as char,
        ],
        valid_utf8(bytes.take(length_of_first_scalar(bytes))),
{
    let one = bytes.take(length_of_first_scalar(bytes));
    assert(valid_first_scalar(one));
    assert(pop_first_scalar(one) =~= Seq::empty());
    assert(valid_utf8(pop_first_scalar(one)));
    assert(decode_utf8(pop_first_scalar(one)) =~= Seq::empty());
    assert(decode_utf8(one) =~= seq![decode_first_scalar(bytes) as char]);
}

/// The text between two cuts.
pub(crate) fn slice<'a>(s: &'a str, from: usize, to: usize) -> (part: &'a str)
    requires
        from <= to,
        is_cut(s.spec_bytes(), from as int),
        is_cut(s.spec_bytes(), to as int),
    ensures
        part.spec_bytes() == s.spec_bytes().subrange(from as int, to as int),
        part@ == decode_utf8(s.spec_bytes().subrange(from as int, to as int)),
{
    let ghost bytes = s.spec_bytes();
    proof {
        vstd::utf8::encode_utf8_valid_utf8(s@);
        lemma_cut(bytes, from as int);
    }
    let tail = s.split_at(from).1;
    proof {
        vstd::utf8::encode_utf8_valid_utf8(tail@);
        let n = to - from;
        let rest = tail.spec_bytes();
        if n < rest.len() {
            assert(rest[n] == bytes[to as int]);
        }
        assert(is_cut(rest, n));
        lemma_cut(rest, n);
    }
    let part = tail.split_at(to - from).0;
    proof {
        assert(part.spec_bytes() =~= bytes.subrange(from as int, to as int));
        vstd::utf8::encode_utf8_decode_utf8(part@);
    }
    part
}

/// Texts with the same bytes are the same.
pub(crate) proof fn lemma_same_bytes(a: Seq<char>, b: Seq<char>)
    ensures
        encode_utf8(a) == encode_utf8(b) <==> a == b,
{
    vstd::utf8::encode_utf8_decode_utf8(a);
    vstd::utf8::encode_utf8_decode_utf8(b);
}

/// The encoding of two texts in a row.
pub(crate) proof fn lemma_encode_concat(a: Seq<char>, b: Seq<char>)
    ensures
        encode_utf8(a + b) == encode_utf8(a) + encode_utf8(b),
    decreases a.len(),
{
    if a.len() == 0 {
        assert(a + b =~= b);
        assert(encode_utf8(a) =~= Seq::empty());
        assert(encode_utf8(a) + encode_utf8(b) =~= encode_utf8(b));
    } else {
        lemma_encode_concat(a.drop_first(), b);
        assert((a + b).drop_first() =~= a.drop_first() + b);
        assert(encode_utf8(a + b) =~= encode_utf8(a) + encode_utf8(b));
    }
}

/// The encoding of an ASCII character.
pub(crate) proof fn lemma_encode_ascii(c: char)
    requires
        (c as u32) < 0x80,
    ensures
        encode_utf8(seq![c]) == seq![c as u8],
{
    assert(vstd::utf8::is_ascii_chars(seq![c]));
    vstd::utf8::is_ascii_chars_encode_utf8(seq![c]);
    assert(seq![c][0] as u8 == encode_utf8(seq![c])[0]);
    assert(encode_utf8(seq![c]) =~= seq![c as u8]);
}

/// An ASCII byte in an encoding stands for a character of its own.
pub(crate) proof fn lemma_encode_has_ascii(s: Seq<char>, k: int)
    requires
        0 <= k < encode_utf8(s).len(),
        encode_utf8(s)[k] < 0x80,
    ensures
        s.contains(encode_utf8(s)[k] as char),
    decreases s.len(),
{
    if s.len() > 0 {
        let c = s[0] as u32;
        let head = encode_scalar(c);
        let tail = encode_utf8(s.drop_first());
        vstd::utf8::char_is_scalar(s[0]);
        assert(encode_utf8(s) =~= head + tail);
        if k < head.len() {
            if c < 0x80 {
                assert((c & 0x7F) as u8 == c) by (bit_vector)
                    requires
                        c < 0x80,
                ;
                assert(head.len() == 1 && k == 0);
                assert(encode_utf8(s)[k] == c);
                vstd::utf8::char_u32_cast(s[0], c);
                assert(s[0] == encode_utf8(s)[k] as char);
            } else {
                lemma_multibyte(c);
                assert(head[k] >= 0x80);
            }
        } else {
            lemma_encode_has_ascii(s.drop_first(), k - head.len());
            let found = encode_utf8(s)[k] as char;
            let at = choose|j: int| 0 <= j < s.drop_first().len() && s.drop_first()[j] == found;
            assert(s[at + 1] == found);
        }
    }
}

/// No byte of a character beyond ASCII is an ASCII byte.
pub(crate) proof fn lemma_multibyte(c: u32)
    requires
        is_scalar(c),
        c >= 0x80,
    ensures
        forall|k: int| 0 <= k < encode_scalar(c).len() ==> #[trigger] encode_scalar(c)[k] >= 0x80,
{
    assert(0xC0u8 | ((c >> 6) & 0x1F) as u8 >= 0x80) by (bit_vector);
    assert(0xE0u8 | ((c >> 12) & 0x0F) as u8 >= 0x80) by (bit_vector);
    assert(0xF0u8 | ((c >> 18) & 0x7) as u8 >= 0x80) by (bit_vector);
    assert(0x80u8 | (c & 0x3F) as u8 >= 0x80) by (bit_vector);
    assert(0x80u8 | ((c >> 6) & 0x3F) as u8 >= 0x80) by (bit_vector);
    assert(0x80u8 | ((c >> 12) & 0x3F) as u8 >= 0x80) by (bit_vector);
}

/// An ASCII character of a text is a byte of its encoding.
pub(crate) proof fn lemma_ascii_is_encoded(s: Seq<char>, c: char)
    requires
        s.contains(c),
        (c as u32) < 0x80,
    ensures
        encode_utf8(s).contains(c as u8),
{
    let k = choose|k: int| 0 <= k < s.len() && s[k] == c;
    let head = s.take(k);
    let tail = s.skip(k + 1);
    assert(s =~= head + seq![c] + tail);
    lemma_encode_concat(head, seq![c]);
    lemma_encode_concat(head + seq![c], tail);
    lemma_encode_ascii(c);
    assert(encode_utf8(s)[encode_utf8(head).len() as int] == c as u8);
}

/// The bytes between two cuts are text.
pub(crate) proof fn lemma_part_is_text(bytes: Seq<u8>, from: int, to: int)
    requires
        valid_utf8(bytes),
        from <= to,
        is_cut(bytes, from),
        is_cut(bytes, to),
    ensures
        valid_utf8(bytes.subrange(from, to)),
{
    lemma_cut(bytes, from);
    let rest = bytes.skip(from);
    let n = to - from;
    if n < rest.len() {
        assert(rest[n] == bytes[to]);
    }
    lemma_cut(rest, n);
    assert(rest.take(n) =~= bytes.subrange(from, to));
}

/// Where one text stands to another in byte order.
#[derive(Debug, Clone, Copy, PartialEq, Eq, Structural)]
pub enum Place {
    Before,
    Same,
    After,
}

/// Byte order: at the first difference the smaller byte comes first, and a
/// text comes before its own continuations.
pub open spec fn bytes_before(a: Seq<u8>, b: Seq<u8>) -> bool
    decreases a.len(),
{
    if b.len() == 0 {
        false
    } else if a.len() == 0 {
        true
    } else if a[0] != b[0] {
        a[0] < b[0]
    } else {
        bytes_before(a.skip(1), b.skip(1))
    }
}

/// Byte order of texts.
pub open spec fn text_before(a: Seq<char>, b: Seq<char>) -> bool {
    bytes_before(encode_utf8(a), encode_utf8(b))
}

pub(crate) proof fn lemma_bytes_before_total(a: Seq<u8>, b: Seq<u8>)
    ensures
        bytes_before(a, b) || bytes_before(b, a) || a == b,
        !(bytes_before(a, b) && bytes_before(b, a)),
        !bytes_before(a, a),
        bytes_before(a, b) ==> a != b,
    decreases a.len(),
{
    if a.len() > 0 && b.len() > 0 {
        lemma_bytes_before_total(a.skip(1), b.skip(1));
        if a[0] == b[0] && a.skip(1) == b.skip(1) {
            assert(a =~= seq![a[0]] + a.skip(1));
            assert(b =~= seq![b[0]] + b.skip(1));
        }
    } else if a.len() > 0 {
        lemma_bytes_before_total(a.skip(1), a.skip(1));
    } else {
        assert(b.len() == 0 ==> a =~= b);
    }
}

pub(crate) proof fn lemma_bytes_before_transitive(a: Seq<u8>, b: Seq<u8>, c: Seq<u8>)
    requires
        bytes_before(a, b),
        bytes_before(b, c),
    ensures
        bytes_before(a, c),
    decreases a.len(),
{
    if a.len() > 0 && b.len() > 0 && c.len() > 0 && a[0] == b[0] && b[0] == c[0] {
        lemma_bytes_before_transitive(a.skip(1), b.skip(1), c.skip(1));
    }
}

/// Byte order of texts is a strict total order.
pub proof fn law_text_order(a: Seq<char>, b: Seq<char>, c: Seq<char>)
    ensures
        !text_before(a, a),
        text_before(a, b) || text_before(b, a) || a == b,
        !(text_before(a, b) && text_before(b, a)),
        text_before(a, b) && text_before(b, c) ==> text_before(a, c),
{
    lemma_bytes_before_total(encode_utf8(a), encode_utf8(b));
    lemma_same_bytes(a, b);
    if text_before(a, b) && text_before(b, c) {
        lemma_bytes_before_transitive(encode_utf8(a), encode_utf8(b), encode_utf8(c));
    }
}

/// A text comes before its own continuations.
pub(crate) proof fn lemma_continuation_after(a: Seq<char>, more: Seq<char>)
    requires
        more.len() > 0,
    ensures
        text_before(a, a + more),
{
    lemma_encode_concat(a, more);
    if encode_utf8(more).len() == 0 {
        assert(encode_utf8(more) =~= encode_utf8(Seq::<char>::empty()));
        lemma_same_bytes(more, Seq::empty());
    }
    lemma_bytes_continuation_after(encode_utf8(a), encode_utf8(more));
}

proof fn lemma_bytes_continuation_after(a: Seq<u8>, more: Seq<u8>)
    requires
        more.len() > 0,
    ensures
        bytes_before(a, a + more),
    decreases a.len(),
{
    if a.len() > 0 {
        lemma_bytes_continuation_after(a.skip(1), more);
        assert((a + more).skip(1) =~= a.skip(1) + more);
    }
}

/// Places one text against another.
pub(crate) fn place(a: &str, b: &str) -> (p: Place)
    ensures
        p is Before <==> text_before(a@, b@),
        p is Same <==> a@ == b@,
        p is After <==> text_before(b@, a@),
{
    let x = a.as_bytes();
    let y = b.as_bytes();
    let mut i: usize = 0;
    proof {
        assert(x@.skip(0) =~= x@);
        assert(y@.skip(0) =~= y@);
        lemma_same_bytes(a@, b@);
        lemma_bytes_before_total(x@, y@);
    }
    while i < x.len() && i < y.len() && x[i] == y[i]
        invariant
            i <= x@.len(),
            i <= y@.len(),
            x@.take(i as int) == y@.take(i as int),
            bytes_before(x@, y@) == bytes_before(x@.skip(i as int), y@.skip(i as int)),
            bytes_before(y@, x@) == bytes_before(y@.skip(i as int), x@.skip(i as int)),
        decreases x@.len() - i,
    {
        proof {
            assert(x@.take(i + 1) =~= x@.take(i as int).push(x@[i as int]));
            assert(y@.take(i + 1) =~= y@.take(i as int).push(y@[i as int]));
            assert(x@.skip(i as int).skip(1) =~= x@.skip(i + 1));
            assert(y@.skip(i as int).skip(1) =~= y@.skip(i + 1));
        }
        i = i + 1;
    }
    if i < y.len() && (i == x.len() || x[i] < y[i]) {
        Place::Before
    } else if i < x.len() {
        Place::After
    } else {
        assert(x@ =~= x@.take(i as int));
        assert(y@ =~= y@.take(i as int));
        Place::Same
    }
}

/// Whether two texts are the same.
pub(crate) fn same(a: &str, b: &str) -> (equal: bool)
    ensures
        equal == (a@ == b@),
{
    match place(a, b) {
        Place::Same => true,
        _ => false,
    }
}

/// The UTF-8 encoding of a character.
fn encode(code: u32) -> (bytes: Vec<u8>)
    requires
        is_scalar(code),
    ensures
        bytes@ == encode_scalar(code),
{
    let mut bytes: Vec<u8> = Vec::new();
    if code <= 0x7F {
        bytes.push((code & 0x7F) as u8);
    } else if code <= 0x7FF {
        bytes.push(0xC0 | ((code >> 6) & 0x1F) as u8);
        bytes.push(0x80 | (code & 0x3F) as u8);
    } else if code <= 0xFFFF {
        bytes.push(0xE0 | ((code >> 12) & 0x0F) as u8);
        bytes.push(0x80 | ((code >> 6) & 0x3F) as u8);
        bytes.push(0x80 | (code & 0x3F) as u8);
    } else {
        bytes.push(0xF0 | ((code >> 18) & 0x7) as u8);
        bytes.push(0x80 | ((code >> 12) & 0x3F) as u8);
        bytes.push(0x80 | ((code >> 6) & 0x3F) as u8);
        bytes.push(0x80 | (code & 0x3F) as u8);
    }
    assert(bytes@ =~= encode_scalar(code));
    bytes
}

/// Appends one character, given by its code point.
pub(crate) fn append_scalar(out: &mut String, code: u32)
    requires
        is_scalar(code),
    ensures
        final(out)@ == old(out)@.push(code as char),
{
    let bytes = encode(code);
    proof {
        let one = seq![code as char];
        assert(one.drop_first() =~= Seq::empty());
        assert(encode_utf8(one.drop_first()) =~= Seq::empty());
        assert(encode_utf8(one) =~= bytes@);
        vstd::utf8::encode_utf8_valid_utf8(one);
        vstd::utf8::encode_utf8_decode_utf8(one);
    }
    match decode(bytes.as_slice()) {
        Some(s) => {
            out.append(s);
            assert(out@ =~= old(out)@.push(code as char));
        },
        None => {
            assert(false);
        },
    }
}

/// Byte order goes by the first difference: two texts agree up to a place where
/// the first of them ends or has the smaller byte.
pub proof fn law_order_goes_by_the_first_difference(a: Seq<u8>, b: Seq<u8>)
    ensures
        bytes_before(a, b) <==> exists|k: int|
            0 <= k <= a.len() && k < b.len() && #[trigger] a.take(k) == b.take(k) && (k == a.len()
                || a[k] < b[k]),
    decreases a.len(),
{
    if bytes_before(a, b) {
        if a.len() == 0 {
            assert(a.take(0) == b.take(0));
        } else if a[0] != b[0] {
            assert(a.take(0) == b.take(0));
        } else {
            let c = a.skip(1);
            let d = b.skip(1);
            law_order_goes_by_the_first_difference(c, d);
            let k = choose|k: int|
                0 <= k <= c.len() && k < d.len() && #[trigger] c.take(k) == d.take(k) && (k
                    == c.len() || c[k] < d[k]);
            assert forall|i: int| 0 <= i < k + 1 implies a[i] == b[i] by {
                if i > 0 {
                    assert(c.take(k)[i - 1] == d.take(k)[i - 1]);
                }
            }
            assert(a.take(k + 1) == b.take(k + 1));
        }
    }
    if exists|k: int|
        0 <= k <= a.len() && k < b.len() && #[trigger] a.take(k) == b.take(k) && (k == a.len()
            || a[k] < b[k]) {
        let k = choose|k: int|
            0 <= k <= a.len() && k < b.len() && #[trigger] a.take(k) == b.take(k) && (k == a.len()
                || a[k] < b[k]);
        if k > 0 {
            let c = a.skip(1);
            let d = b.skip(1);
            assert(a.take(k)[0] == b.take(k)[0]);
            assert forall|i: int| 0 <= i < k - 1 implies c[i] == d[i] by {
                assert(a.take(k)[i + 1] == b.take(k)[i + 1]);
            }
            assert(c.take(k - 1) == d.take(k - 1));
            law_order_goes_by_the_first_difference(c, d);
        }
    }
}

} // verus!
