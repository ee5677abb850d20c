//! How a path is written, piece by piece: names, indices and wildcards in a row.

use crate::number::spelled;
use crate::path::{
    accessor, accessors_at, bracket_end, ends_name, lemma_accessors_end, lemma_bracket_end,
    lemma_name_end, name_end, parts_at, path_of, PathReading, Step,
};
use vstd::prelude::*;
use vstd::utf8::{decode_first_scalar, decode_utf8, encode_utf8};

verus! {

/// One piece of a written path: a name, an index in brackets, or a pair of brackets
/// with nothing between them.
pub enum Piece {
    Name(Seq<u8>),
    At(Seq<u8>),
    Every,
}

impl Piece {
    /// The piece as it is written. A name has a dot before it, unless it comes first.
    pub open spec fn bytes(&self, leading: bool) -> Seq<u8> {
        match self {
            Piece::Name(name) => if leading {
                *name
            } else {
                seq![0x2Eu8] + *name
            },
            Piece::At(index) => seq![0x5Bu8] + *index + seq![0x5Du8],
            Piece::Every => seq![0x5Bu8, 0x5Du8],
        }
    }

    /// A name is not empty and holds no dot and no bracket. An index is a number of
    /// 64 bits.
    pub open spec fn good(&self) -> bool {
        match self {
            Piece::Name(name) => name.len() > 0 && forall|k: int|
                0 <= k < name.len() ==> #[trigger] name[k] != 0x2E && name[k] != 0x5B && name[k]
                    != 0x5D,
            Piece::At(index) => spelled(*index, true) matches Some(n) && -0x8000_0000_0000_0000 <= n
                <= 0x7FFF_FFFF_FFFF_FFFF,
            Piece::Every => true,
        }
    }

    /// The step that the piece says to take.
    pub open spec fn step(&self) -> Step {
        match self {
            Piece::Name(name) => Step::Key(decode_utf8(*name)),
            Piece::At(index) => Step::Index(spelled(*index, true)->0),
            Piece::Every => Step::Wildcard,
        }
    }
}

/// Some pieces in a row, as they are written.
pub open spec fn written(pieces: Seq<Piece>, leading: bool) -> Seq<u8>
    decreases pieces.len(),
{
    if pieces.len() == 0 {
        Seq::empty()
    } else {
        pieces[0].bytes(leading) + written(pieces.skip(1), false)
    }
}

/// The steps that some pieces say to take.
pub open spec fn taken(pieces: Seq<Piece>) -> Seq<Step> {
    pieces.map_values(|piece: Piece| piece.step())
}

/// Every piece is one that can be written.
pub open spec fn all_good(pieces: Seq<Piece>) -> bool {
    forall|k: int| 0 <= k < pieces.len() ==> (#[trigger] pieces[k]).good()
}

/// None of the pieces is a name.
spec fn all_accessors(pieces: Seq<Piece>) -> bool {
    forall|k: int| 0 <= k < pieces.len() ==> !(#[trigger] pieces[k] is Name)
}

proof fn lemma_written_concat(a: Seq<Piece>, b: Seq<Piece>, leading: bool)
    requires
        a.len() > 0,
    ensures
        written(a + b, leading) == written(a, leading) + written(b, false),
    decreases a.len(),
{
    assert((a + b).skip(1) =~= a.skip(1) + b);
    if a.len() > 1 {
        lemma_written_concat(a.skip(1), b, false);
    } else {
        assert(a.skip(1) + b =~= b);
        assert(written(a.skip(1), false) =~= Seq::empty());
    }
    assert(written(a + b, leading) =~= written(a, leading) + written(b, false));
}

proof fn lemma_taken_concat(a: Seq<Piece>, b: Seq<Piece>)
    ensures
        taken(a + b) == taken(a) + taken(b),
{
    assert(taken(a + b) =~= taken(a) + taken(b));
}

/// Accessors that are read are pieces that stand there.
proof fn lemma_accessors_are_pieces(b: Seq<u8>, i: nat, done: Seq<Step>) -> (pieces: Seq<Piece>)
    requires
        i <= b.len(),
        accessors_at(b, i, done) is Ok,
    ensures
        ({
            let (steps, end) = accessors_at(b, i, done)->Ok_0;
            &&& all_good(pieces)
            &&& all_accessors(pieces)
            &&& i <= end <= b.len()
            &&& steps == done + taken(pieces)
            &&& b.subrange(i as int, end as int) == written(pieces, false)
            &&& end > i <==> pieces.len() > 0
            &&& end < b.len() ==> b[end as int] != 0x5B
        }),
    decreases b.len() - i,
{
    if i < b.len() && b[i as int] == 0x5B {
        lemma_bracket_end(b, i + 1);
        let close = bracket_end(b, i + 1);
        let inner = b.subrange(i as int + 1, close as int);
        let step = accessor(inner)->0;
        let rest = lemma_accessors_are_pieces(b, close + 1, done.push(step));
        let end = accessors_at(b, i, done)->Ok_0.1;
        let piece = if inner.len() == 0 {
            Piece::Every
        } else {
            Piece::At(inner)
        };
        assert(piece.good());
        assert(piece.step() == step);
        let pieces = seq![piece] + rest;
        assert(pieces.skip(1) =~= rest);
        assert(taken(pieces) =~= seq![step] + taken(rest));
        assert(done.push(step) + taken(rest) =~= done + taken(pieces));
        assert(b.subrange(i as int, end as int) =~= piece.bytes(false) + b.subrange(
            close as int + 1,
            end as int,
        ));
        assert(all_good(pieces)) by {
            assert forall|k: int| 0 <= k < pieces.len() implies (#[trigger] pieces[k]).good() by {
                if k > 0 {
                    assert(pieces[k] == rest[k - 1]);
                }
            }
        }
        assert(all_accessors(pieces)) by {
            assert forall|k: int| 0 <= k < pieces.len() implies !(#[trigger] pieces[k] is Name) by {
                if k > 0 {
                    assert(pieces[k] == rest[k - 1]);
                }
            }
        }
        pieces
    } else {
        let none = Seq::<Piece>::empty();
        assert(done + taken(none) =~= done);
        assert(b.subrange(i as int, i as int) =~= written(none, false));
        none
    }
}

proof fn lemma_name_bytes(b: Seq<u8>, i: nat)
    ensures
        forall|k: int| i <= k < name_end(b, i) ==> !ends_name(#[trigger] b[k]),
    decreases b.len() - i,
{
    if i < b.len() && !ends_name(b[i as int]) {
        lemma_name_bytes(b, i + 1);
    }
}

/// Parts that are read are pieces that stand there, with a dot before every part
/// after the first.
proof fn lemma_parts_are_pieces(b: Seq<u8>, i: nat, first: bool, done: Seq<Step>) -> (pieces: Seq<
    Piece,
>)
    requires
        i <= b.len(),
        parts_at(b, i, first, done) is Path,
    ensures
        pieces.len() > 0,
        all_good(pieces),
        !first ==> pieces[0] is Name,
        parts_at(b, i, first, done)->Path_0 == done + taken(pieces),
        b.skip(i as int) == written(pieces, true),
    decreases b.len() - i,
{
    let end = name_end(b, i);
    lemma_name_end(b, i);
    lemma_name_bytes(b, i);
    let name = b.subrange(i as int, end as int);
    let heads = if end == i {
        Seq::empty()
    } else {
        seq![Piece::Name(name)]
    };
    let named = if end == i {
        done
    } else {
        done.push(Step::Key(decode_utf8(name)))
    };
    assert(named =~= done + taken(heads));
    let (steps, next) = accessors_at(b, end, named)->Ok_0;
    let tails = lemma_accessors_are_pieces(b, end, named);
    let part = heads + tails;
    lemma_taken_concat(heads, tails);
    assert(done + taken(part) =~= named + taken(tails));
    assert(all_good(part)) by {
        assert forall|k: int| 0 <= k < part.len() implies (#[trigger] part[k]).good() by {
            if k >= heads.len() {
                assert(part[k] == tails[k - heads.len()]);
            }
        }
    }
    assert(b.subrange(i as int, next as int) =~= name + b.subrange(end as int, next as int));
    assert(b.subrange(i as int, next as int) == written(part, true)) by {
        if end == i {
            assert(part =~= tails);
            assert(name =~= Seq::empty());
            assert(part[0] == tails[0]);
            assert(!(tails[0] is Name));
        } else {
            lemma_written_concat(heads, tails, true);
            assert(heads.skip(1) =~= Seq::empty());
            assert(heads[0].bytes(true) == name);
            assert(written(heads.skip(1), false) =~= Seq::empty());
            assert(written(heads, true) =~= name);
        }
    }
    if next >= b.len() {
        assert(b.skip(i as int) =~= b.subrange(i as int, next as int));
        part
    } else {
        let rest = lemma_parts_are_pieces(b, next + 1, false, steps);
        let pieces = part + rest;
        lemma_taken_concat(part, rest);
        assert(steps + taken(rest) =~= done + taken(pieces));
        lemma_written_concat(part, rest, true);
        assert(rest[0] is Name);
        assert(written(rest, false) =~= seq![0x2Eu8] + written(rest, true));
        assert(b.skip(i as int) =~= b.subrange(i as int, next as int) + seq![0x2Eu8] + b.skip(
            next as int + 1,
        ));
        assert(b.skip(i as int) =~= written(pieces, true));
        assert(all_good(pieces)) by {
            assert forall|k: int| 0 <= k < pieces.len() implies (#[trigger] pieces[k]).good() by {
                if k >= part.len() {
                    assert(pieces[k] == rest[k - part.len()]);
                } else {
                    assert(pieces[k] == part[k]);
                }
            }
        }
        pieces
    }
}

/// Only pieces in a row are a path: the first without a dot before it, every other
/// name behind a dot, and nothing else anywhere.
pub proof fn law_only_pieces_are_a_path(text: Seq<char>) -> (pieces: Seq<Piece>)
    requires
        path_of(text) is Path,
    ensures
        pieces.len() > 0,
        all_good(pieces),
        encode_utf8(text) == written(pieces, true),
        path_of(text)->Path_0 == taken(pieces),
{
    let b = encode_utf8(text);
    let pieces = lemma_parts_are_pieces(b, 0, true, Seq::empty());
    assert(b.skip(0) =~= b);
    assert(Seq::<Step>::empty() + taken(pieces) =~= taken(pieces));
    pieces
}

proof fn lemma_bracket_found(b: Seq<u8>, i: nat, close: nat)
    requires
        i <= close < b.len(),
        b[close as int] == 0x5D,
        forall|k: int| i <= k < close ==> #[trigger] b[k] != 0x5D,
    ensures
        bracket_end(b, i) == close,
    decreases close - i,
{
    if i < close {
        assert(b[i as int] != 0x5D);
        lemma_bracket_found(b, i + 1, close);
    }
}

proof fn lemma_name_found(b: Seq<u8>, i: nat, end: nat)
    requires
        i <= end <= b.len(),
        end < b.len() ==> ends_name(b[end as int]),
        forall|k: int| i <= k < end ==> !ends_name(#[trigger] b[k]),
    ensures
        name_end(b, i) == end,
    decreases end - i,
{
    if i < end {
        assert(!ends_name(b[i as int]));
        lemma_name_found(b, i + 1, end);
    }
}

proof fn lemma_index_bytes(index: Seq<u8>)
    requires
        spelled(index, true) is Some,
    ensures
        index.len() > 0,
        forall|k: int| 0 <= k < index.len() ==> #[trigger] index[k] != 0x5D,
{
    crate::number::law_only_digits_spell_numbers(index, true);
}

/// Where pieces stand, the accessors before the next name are read.
proof fn lemma_pieces_are_accessors(b: Seq<u8>, i: nat, done: Seq<Step>, pieces: Seq<Piece>) -> (n:
    nat)
    requires
        i <= b.len(),
        all_good(pieces),
        b.skip(i as int) == written(pieces, false),
    ensures
        n <= pieces.len(),
        n < pieces.len() ==> pieces[n as int] is Name,
        pieces.len() > 0 && !(pieces[0] is Name) ==> n > 0,
        ({
            let end = (i + written(pieces.take(n as int), false).len()) as nat;
            &&& end <= b.len()
            &&& accessors_at(b, i, done) == Ok::<(Seq<Step>, nat), (nat, Seq<char>)>(
                (done + taken(pieces.take(n as int)), end),
            )
            &&& b.skip(end as int) == written(pieces.skip(n as int), false)
            &&& n > 0 ==> end > i
            &&& n == 0 ==> end == i
        }),
    decreases pieces.len(),
{
    let left = b.skip(i as int);
    if pieces.len() == 0 || pieces[0] is Name {
        assert(pieces.take(0) =~= Seq::empty());
        assert(pieces.skip(0) =~= pieces);
        assert(done + taken(pieces.take(0)) =~= done);
        if pieces.len() > 0 {
            assert(left[0] == 0x2E);
            assert(b[i as int] == left[0]);
        } else {
            assert(left.len() == 0);
        }
        0
    } else {
        let piece = pieces[0];
        let rest = pieces.skip(1);
        let own = piece.bytes(false);
        assert(piece.good());
        let inner = match piece {
            Piece::At(index) => index,
            _ => Seq::empty(),
        };
        if piece is At {
            lemma_index_bytes(inner);
        }
        assert(own =~= seq![0x5Bu8] + inner + seq![0x5Du8]);
        let close = i + 1 + inner.len();
        assert(left.len() >= own.len());
        assert forall|k: int| 0 <= k < own.len() implies b[i + k] == #[trigger] own[k] by {
            assert(left[k] == own[k]);
        }
        assert(b[i as int] == own[0]);
        assert(b[close as int] == own[own.len() - 1]);
        assert forall|k: int| i + 1 <= k < close implies #[trigger] b[k] != 0x5D by {
            assert(b[i + (k - i)] == own[k - i]);
            assert(own[k - i] == inner[k - i - 1]);
        }
        lemma_bracket_found(b, i + 1, close as nat);
        assert(b.subrange(i as int + 1, close as int) =~= inner) by {
            assert forall|k: int| 0 <= k < inner.len() implies b[i + 1 + k] == inner[k] by {
                assert(b[i + (k + 1)] == own[k + 1]);
            }
        }
        assert(accessor(inner) == Some(piece.step()));
        assert(b.skip(close as int + 1) =~= written(rest, false)) by {
            assert(b.skip(close as int + 1) =~= left.skip(own.len() as int));
        }
        assert(all_good(rest)) by {
            assert forall|k: int| 0 <= k < rest.len() implies (#[trigger] rest[k]).good() by {
                assert(rest[k] == pieces[k + 1]);
            }
        }
        let more = done.push(piece.step());
        let m = lemma_pieces_are_accessors(b, (close + 1) as nat, more, rest);
        let n = (m + 1) as nat;
        let head = pieces.take(n as int);
        assert(head.skip(1) =~= rest.take(m as int));
        assert(head[0] == piece);
        assert(pieces.skip(n as int) =~= rest.skip(m as int));
        assert(taken(head) =~= seq![piece.step()] + taken(rest.take(m as int)));
        assert(more + taken(rest.take(m as int)) =~= done + taken(head));
        if n < pieces.len() {
            assert(rest[m as int] == pieces[n as int]);
        }
        n
    }
}

/// Where pieces stand, parts are read.
proof fn lemma_pieces_are_parts(
    b: Seq<u8>,
    i: nat,
    first: bool,
    done: Seq<Step>,
    pieces: Seq<Piece>,
)
    requires
        i <= b.len(),
        pieces.len() > 0,
        all_good(pieces),
        !first ==> pieces[0] is Name,
        b.skip(i as int) == written(pieces, true),
    ensures
        parts_at(b, i, first, done) == PathReading::Path(done + taken(pieces)),
    decreases pieces.len(),
{
    let left = b.skip(i as int);
    assert(pieces[0].good());
    let (name, after): (Seq<u8>, Seq<Piece>) = match pieces[0] {
        Piece::Name(name) => (name, pieces.skip(1)),
        _ => (Seq::empty(), pieces),
    };
    let end = (i + name.len()) as nat;
    assert(left =~= name + written(after, false));
    assert forall|k: int| 0 <= k < name.len() implies b[i + k] == #[trigger] name[k] by {
        assert(left[k] == name[k]);
    }
    assert(b.skip(end as int) =~= written(after, false)) by {
        assert(b.skip(end as int) =~= left.skip(name.len() as int));
    }
    if after.len() > 0 {
        assert(after[0] == if pieces[0] is Name {
            pieces[1]
        } else {
            pieces[0]
        });
        assert(after[0].good());
        assert(b.skip(end as int)[0] == after[0].bytes(false)[0]);
        assert(ends_name(b[end as int]));
    }
    assert forall|k: int| i <= k < end implies !ends_name(#[trigger] b[k]) by {
        assert(b[i + (k - i)] == name[k - i]);
    }
    lemma_name_found(b, i, end);
    assert(b.subrange(i as int, end as int) =~= name);
    let named = if end == i {
        done
    } else {
        done.push(Step::Key(decode_utf8(name)))
    };
    assert(all_good(after)) by {
        assert forall|k: int| 0 <= k < after.len() implies (#[trigger] after[k]).good() by {
            if pieces[0] is Name {
                assert(after[k] == pieces[k + 1]);
            }
        }
    }
    let n = lemma_pieces_are_accessors(b, end, named, after);
    let own = after.take(n as int);
    let rest = after.skip(n as int);
    let next = (end + written(own, false).len()) as nat;
    let steps = named + taken(own);
    assert(named + taken(own) + taken(rest) =~= done + taken(pieces)) by {
        assert(own + rest =~= after);
        lemma_taken_concat(own, rest);
        if pieces[0] is Name {
            assert(pieces =~= seq![pieces[0]] + after);
            lemma_taken_concat(seq![pieces[0]], after);
            assert(taken(seq![pieces[0]]) =~= seq![Step::Key(decode_utf8(name))]);
        }
    }
    if rest.len() == 0 {
        assert(b.skip(next as int).len() == 0);
        assert(taken(rest) =~= Seq::empty());
        assert(steps + taken(rest) =~= steps);
        assert(done + taken(pieces) =~= steps);
    } else {
        assert(rest[0] == after[n as int]);
        assert(rest[0] is Name);
        assert(rest[0].good());
        let tail = b.skip(next as int);
        assert(written(rest, false) =~= seq![0x2Eu8] + written(rest, true));
        assert(tail.len() > 0 && tail[0] == 0x2E);
        assert(next < b.len());
        assert(b[next as int] == tail[0]);
        assert(b.skip(next as int + 1) =~= written(rest, true)) by {
            assert(b.skip(next as int + 1) =~= tail.skip(1));
        }
        assert(written(rest, true).len() > 0);
        assert(all_good(rest)) by {
            assert forall|k: int| 0 <= k < rest.len() implies (#[trigger] rest[k]).good() by {
                assert(rest[k] == after[n + k]);
            }
        }
        lemma_pieces_are_parts(b, (next + 1) as nat, false, steps, rest);
        assert(steps + taken(rest) =~= done + taken(pieces));
    }
}

/// Any pieces in a row are a path, and its steps are what they say, one for one.
pub proof fn law_any_pieces_are_a_path(text: Seq<char>, pieces: Seq<Piece>)
    requires
        pieces.len() > 0,
        all_good(pieces),
        encode_utf8(text) == written(pieces, true),
    ensures
        path_of(text) == PathReading::Path(taken(pieces)),
{
    let b = encode_utf8(text);
    assert(b.skip(0) =~= b);
    lemma_pieces_are_parts(b, 0, true, Seq::empty(), pieces);
    assert(Seq::<Step>::empty() + taken(pieces) =~= taken(pieces));
}

/// What a complaint about a path says of what stands at its place.
pub open spec fn is_at_fault(b: Seq<u8>, p: int, message: Seq<char>) -> bool {
    ||| message == "empty field path"@ && p == 0 && (b.len() == 0 || b[0] == 0x2E || b[0] == 0x5D)
    ||| message == "empty path segment"@ && 0 < p < b.len() && b[p - 1] == 0x2E && (b[p] == 0x2E
        || b[p] == 0x5B || b[p] == 0x5D)
    ||| message == "trailing '.'"@ && p == b.len() && p > 0 && b[p - 1] == 0x2E
    ||| message == "unterminated '['"@ && 0 <= p < b.len() && b[p] == 0x5B && forall|k: int|
        p < k < b.len() ==> #[trigger] b[k] != 0x5D
    ||| is_bad_index(b, p, message)
    ||| message == "unexpected '"@ + seq![decode_first_scalar(b.skip(p)) as char] + "'"@ && 0 <= p
        < b.len() && b[p] != 0x2E && b[p] != 0x5B
}

/// A complaint names what stands between two brackets where an index should be.
pub open spec fn is_bad_index(b: Seq<u8>, p: int, message: Seq<char>) -> bool {
    exists|close: int|
        0 < p < close < b.len() && b[p - 1] == 0x5B && b[close] == 0x5D && (forall|k: int|
            p <= k < close ==> #[trigger] b[k] != 0x5D) && message == "invalid array index '"@
            + decode_utf8(#[trigger] b.subrange(p, close)) + "'"@ && match spelled(
            b.subrange(p, close),
            true,
        ) {
            Some(n) => n < -0x8000_0000_0000_0000 || n > 0x7FFF_FFFF_FFFF_FFFF,
            None => true,
        }
}

proof fn lemma_accessors_at_fault(b: Seq<u8>, i: nat, done: Seq<Step>)
    requires
        i <= b.len(),
    ensures
        accessors_at(b, i, done) matches Err((p, message)) ==> is_at_fault(b, p as int, message),
        accessors_at(b, i, done) matches Ok((_, end)) ==> end <= b.len() && (end < b.len()
            ==> b[end as int] != 0x5B),
    decreases b.len() - i,
{
    if i < b.len() && b[i as int] == 0x5B {
        lemma_bracket_end(b, i + 1);
        let close = bracket_end(b, i + 1);
        if close < b.len() {
            let inner = b.subrange(i as int + 1, close as int);
            match accessor(inner) {
                Some(step) => {
                    lemma_accessors_at_fault(b, close + 1, done.push(step));
                },
                None => {
                    assert(is_bad_index(
                        b,
                        i as int + 1,
                        "invalid array index '"@ + decode_utf8(inner) + "'"@,
                    ));
                },
            }
        }
    }
}

proof fn lemma_parts_at_fault(b: Seq<u8>, i: nat, first: bool, done: Seq<Step>)
    requires
        i <= b.len(),
        first ==> i == 0,
        !first ==> 0 < i < b.len() && b[i - 1] == 0x2E,
    ensures
        parts_at(b, i, first, done) matches PathReading::Bad(p, message) ==> is_at_fault(
            b,
            p as int,
            message,
        ),
    decreases b.len() - i,
{
    let end = name_end(b, i);
    lemma_name_end(b, i);
    if !(end == i && !first) {
        let named = if end == i {
            done
        } else {
            done.push(Step::Key(decode_utf8(b.subrange(i as int, end as int))))
        };
        lemma_accessors_at_fault(b, end, named);
        lemma_accessors_end(b, end, named);
        match accessors_at(b, end, named) {
            Err(_) => {},
            Ok((steps, next)) => {
                if !(end == i && next == end) && next + 1 < b.len() && b[next as int] == 0x2E {
                    lemma_parts_at_fault(b, next + 1, false, steps);
                }
            },
        }
    }
}

/// A text that is no path is turned down for what stands at the place that the
/// complaint gives.
pub proof fn law_complaints_are_where_a_path_is_wrong(text: Seq<char>)
    ensures
        path_of(text) matches PathReading::Bad(p, message) ==> is_at_fault(
            encode_utf8(text),
            p as int,
            message,
        ),
{
    lemma_parts_at_fault(encode_utf8(text), 0, true, Seq::empty());
}

} // verus!
