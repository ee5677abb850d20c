//! Writing JSON texts.

use crate::json::value::{Json, Value};
use crate::number::{append_signed, signed_decimal};
use crate::text;
use vstd::prelude::*;
use vstd::string::StringExecFns;

verus! {

/// The lower-case hexadecimal digit for a number below sixteen.
pub open spec fn hex_char(n: nat) -> char {
    if n < 10 {
        (0x30 + n) as char
    } else {
        (0x61 + (n - 10)) as char
    }
}

/// How a character stands in a string: quotes, backslashes and control
/// characters are escaped, any other stands for itself.
pub open spec fn escaped(c: char) -> Seq<char> {
    if c == '"' {
        seq!['\\', '"']
    } else if c == '\\' {
        seq!['\\', '\\']
    } else if c == '\u{8}' {
        seq!['\\', 'b']
    } else if c == '\u{c}' {
        seq!['\\', 'f']
    } else if c == '\n' {
        seq!['\\', 'n']
    } else if c == '\r' {
        seq!['\\', 'r']
    } else if c == '\t' {
        seq!['\\', 't']
    } else if (c as u32) < 0x20 {
        seq!['\\', 'u', '0', '0', hex_char((c as u32 / 16) as nat), hex_char((c as u32 % 16) as nat)]
    } else {
        seq![c]
    }
}

/// The characters of a text, each as it stands in a string.
pub open spec fn escapes(s: Seq<char>) -> Seq<char>
    decreases s.len(),
{
    if s.len() == 0 {
        Seq::empty()
    } else {
        escapes(s.drop_last()) + escaped(s.last())
    }
}

/// A text as a JSON string, quotes included.
pub open spec fn quoted(s: Seq<char>) -> Seq<char> {
    seq!['"'] + escapes(s) + seq!['"']
}

/// The compact encoding of a value: no whitespace between tokens.
pub open spec fn encoding(json: Json) -> Seq<char>
    decreases json,
{
    match json {
        Json::Null => seq!['n', 'u', 'l', 'l'],
        Json::Bool(true) => seq!['t', 'r', 'u', 'e'],
        Json::Bool(false) => seq!['f', 'a', 'l', 's', 'e'],
        Json::Int(n) => signed_decimal(n),
        Json::Float(spelling) => spelling,
        Json::Str(s) => quoted(s),
        Json::Array(items) => seq!['['] + items_encoding(items) + seq![']'],
        Json::Object(members) => seq!['{'] + members_encoding(members) + seq!['}'],
    }
}

/// The encodings of array elements, with commas between them.
pub open spec fn items_encoding(items: Seq<Json>) -> Seq<char>
    decreases items,
{
    if items.len() == 0 {
        Seq::empty()
    } else if items.len() == 1 {
        encoding(items[0])
    } else {
        items_encoding(items.drop_last()) + seq![','] + encoding(items.last())
    }
}

/// The encodings of object members, with commas between them.
pub open spec fn members_encoding(members: Seq<(Seq<char>, Json)>) -> Seq<char>
    decreases members,
{
    if members.len() == 0 {
        Seq::empty()
    } else if members.len() == 1 {
        quoted(members[0].0) + seq![':'] + encoding(members[0].1)
    } else {
        members_encoding(members.drop_last()) + seq![','] + quoted(members.last().0) + seq![':']
            + encoding(members.last().1)
    }
}

/// Appends a hexadecimal digit.
fn append_hex(out: &mut String, n: u32)
    requires
        n < 16,
    ensures
        final(out)@ == old(out)@.push(hex_char(n as nat)),
{
    if n < 10 {
        text::append_scalar(out, 0x30 + n);
    } else {
        text::append_scalar(out, 0x61 + (n - 10));
    }
}

/// Appends a character as it stands in a string.
fn append_escaped(out: &mut String, c: char)
    ensures
        final(out)@ == old(out)@ + escaped(c),
{
    let code: u32 = c as u32;
    let short: u32 = if c == '"' {
        0x22
    } else if c == '\\' {
        0x5C
    } else if c == '\u{8}' {
        0x62
    } else if c == '\u{c}' {
        0x66
    } else if c == '\n' {
        0x6E
    } else if c == '\r' {
        0x72
    } else if c == '\t' {
        0x74
    } else {
        0
    };
    if short != 0 {
        text::append_scalar(out, 0x5C);
        text::append_scalar(out, short);
    } else if code < 0x20 {
        text::append_scalar(out, 0x5C);
        text::append_scalar(out, 0x75);
        text::append_scalar(out, 0x30);
        text::append_scalar(out, 0x30);
        append_hex(out, code / 16);
        append_hex(out, code % 16);
    } else {
        text::append_scalar(out, code);
    }
    assert(out@ =~= old(out)@ + escaped(c));
}

/// Appends a text as a JSON string, quotes included.
pub fn escape_into(s: &str, out: &mut String)
    ensures
        final(out)@ == old(out)@ + quoted(s@),
{
    text::append_scalar(out, 0x22);
    let ghost start = out@;
    assert(s@.take(0) =~= Seq::empty());
    assert(start =~= start + escapes(s@.take(0)));
    for c in it: s.chars()
        invariant
            it.seq() == s@,
            out@ == start + escapes(s@.take(it.index() as int)),
    {
        proof {
            let k = it.index() as int;
            assert(s@.take(k + 1).drop_last() =~= s@.take(k));
            assert(s@.take(k + 1).last() == c);
        }
        append_escaped(out, c);
        assert(out@ =~= start + escapes(s@.take(it.index() as int + 1)));
    }
    assert(s@.take(s@.len() as int) =~= s@);
    text::append_scalar(out, 0x22);
    assert(out@ =~= old(out)@ + quoted(s@));
}

impl Value {
    /// The compact JSON encoding of the value.
    pub fn to_json(&self) -> (text: String)
        ensures
            text@ == encoding(self.json()),
    {
        let mut out: String = String::new();
        self.append_to(&mut out);
        assert(out@ =~= encoding(self.json()));
        out
    }

    /// Appends the compact JSON encoding of the value.
    fn append_to(&self, out: &mut String)
        ensures
            final(out)@ == old(out)@ + encoding(self.json()),
        decreases self,
    {
        match self {
            Value::Null => {
                proof {
                    reveal_strlit("null");
                }
                out.append("null");
            },
            Value::Bool(true) => {
                proof {
                    reveal_strlit("true");
                }
                out.append("true");
            },
            Value::Bool(false) => {
                proof {
                    reveal_strlit("false");
                }
                out.append("false");
            },
            Value::Int(n) => {
                append_signed(out, *n);
            },
            Value::Float(spelling) => {
                out.append(spelling.as_str());
            },
            Value::Str(s) => {
                escape_into(s.as_str(), out);
            },
            Value::Array(items) => {
                let ghost model = self.json()->Array_0;
                text::append_scalar(out, 0x5B);
                let ghost start = out@;
                assert(model.take(0) =~= Seq::empty());
                assert(start =~= start + items_encoding(model.take(0)));
                let mut i: usize = 0;
                while i < items.len()
                    invariant
                        i <= items@.len(),
                        self == Value::Array(*items),
                        model == self.json()->Array_0,
                        out@ == start + items_encoding(model.take(i as int)),
                    decreases items@.len() - i,
                {
                    if i > 0 {
                        text::append_scalar(out, 0x2C);
                    }
                    items[i].append_to(out);
                    proof {
                        assert(model.take(i + 1).drop_last() =~= model.take(i as int));
                        assert(model.take(i + 1).last() == items@[i as int].json());
                        assert(out@ =~= start + items_encoding(model.take(i + 1)));
                    }
                    i = i + 1;
                }
                assert(model.take(model.len() as int) =~= model);
                text::append_scalar(out, 0x5D);
                assert(out@ =~= old(out)@ + encoding(self.json()));
            },
            Value::Object(members) => {
                let ghost model = self.json()->Object_0;
                text::append_scalar(out, 0x7B);
                let ghost start = out@;
                assert(model.take(0) =~= Seq::empty());
                assert(start =~= start + members_encoding(model.take(0)));
                let mut i: usize = 0;
                while i < members.len()
                    invariant
                        i <= members@.len(),
                        self == Value::Object(*members),
                        model == self.json()->Object_0,
                        out@ == start + members_encoding(model.take(i as int)),
                    decreases members@.len() - i,
                {
                    if i > 0 {
                        text::append_scalar(out, 0x2C);
                    }
                    escape_into(members[i].0.as_str(), out);
                    text::append_scalar(out, 0x3A);
                    members[i].1.append_to(out);
                    proof {
                        assert(model.take(i + 1).drop_last() =~= model.take(i as int));
                        assert(model.take(i + 1).last() == (
                            members@[i as int].0@,
                            members@[i as int].1.json(),
                        ));
                        assert(out@ =~= start + members_encoding(model.take(i + 1)));
                    }
                    i = i + 1;
                }
                assert(model.take(model.len() as int) =~= model);
                text::append_scalar(out, 0x7D);
                assert(out@ =~= old(out)@ + encoding(self.json()));
            },
        }
    }
}

/// A string holds its characters one after another, each as it is, but for the
/// quotation mark, the backslash and what lies before the space: of these, five
/// have a letter behind a backslash, and any other a number of four digits.
pub proof fn law_characters_stand_for_themselves(s: Seq<char>, c: char)
    ensures
        quoted(Seq::empty()) == seq!['"', '"'],
        quoted(s.push(c)) == quoted(s).drop_last() + escaped(c) + seq!['"'],
        c as u32 >= 0x20 && c as u32 != 0x22 && c as u32 != 0x5C ==> escaped(c) == seq![c],
        c as u32 == 0x22 || c as u32 == 0x5C ==> escaped(c) == seq!['\\', c],
        c as u32 == 0x08 ==> escaped(c) == seq!['\\', 'b'],
        c as u32 == 0x09 ==> escaped(c) == seq!['\\', 't'],
        c as u32 == 0x0A ==> escaped(c) == seq!['\\', 'n'],
        c as u32 == 0x0C ==> escaped(c) == seq!['\\', 'f'],
        c as u32 == 0x0D ==> escaped(c) == seq!['\\', 'r'],
        (c as u32) < 0x20 && c as u32 != 0x08 && c as u32 != 0x09 && c as u32 != 0x0A && c as u32
            != 0x0C && c as u32 != 0x0D ==> {
            let form = escaped(c);
            &&& form.len() == 6
            &&& form.take(5) == if (c as u32) < 0x10 {
                seq!['\\', 'u', '0', '0', '0']
            } else {
                seq!['\\', 'u', '0', '0', '1']
            }
            &&& form[5] as u32 == if c as u32 % 16 < 10 {
                0x30 + c as u32 % 16
            } else {
                0x57 + c as u32 % 16
            }
        },
{
    assert(escapes(Seq::empty()) =~= Seq::empty());
    assert(quoted(Seq::empty()) =~= seq!['"', '"']);
    assert(s.push(c).drop_last() =~= s);
    assert(quoted(s.push(c)) =~= quoted(s).drop_last() + escaped(c) + seq!['"']);
    if (c as u32) < 0x20 && c as u32 != 0x08 && c as u32 != 0x09 && c as u32 != 0x0A && c as u32
        != 0x0C && c as u32 != 0x0D {
        let form = escaped(c);
        let high = if (c as u32) < 0x10 {
            '0'
        } else {
            '1'
        };
        assert(form[4] == high);
        assert(form.take(5) =~= seq!['\\', 'u', '0', '0', high]);
    }
}

/// Encodings hold nothing between the parts but commas and colons: one more element
/// or member stands before the closing bracket, behind a comma unless it is the
/// first.
pub proof fn law_encodings_are_compact(
    items: Seq<Json>,
    item: Json,
    members: Seq<(Seq<char>, Json)>,
    key: Seq<char>,
)
    ensures
        encoding(Json::Array(Seq::empty())) == seq!['[', ']'],
        encoding(Json::Object(Seq::empty())) == seq!['{', '}'],
        encoding(Json::Array(seq![item])) == seq!['['] + encoding(item) + seq![']'],
        encoding(Json::Object(seq![(key, item)])) == seq!['{'] + quoted(key) + seq![':'] + encoding(
            item,
        ) + seq!['}'],
        items.len() > 0 ==> encoding(Json::Array(items.push(item))) == encoding(
            Json::Array(items),
        ).drop_last() + seq![','] + encoding(item) + seq![']'],
        members.len() > 0 ==> encoding(Json::Object(members.push((key, item)))) == encoding(
            Json::Object(members),
        ).drop_last() + seq![','] + quoted(key) + seq![':'] + encoding(item) + seq!['}'],
{
    assert(encoding(Json::Array(Seq::empty())) =~= seq!['[', ']']);
    assert(encoding(Json::Object(Seq::empty())) =~= seq!['{', '}']);
    assert(encoding(Json::Array(seq![item])) =~= seq!['['] + encoding(item) + seq![']']);
    assert(encoding(Json::Object(seq![(key, item)])) =~= seq!['{'] + quoted(key) + seq![':']
        + encoding(item) + seq!['}']);
    if items.len() > 0 {
        assert(items.push(item).drop_last() =~= items);
        assert(encoding(Json::Array(items.push(item))) =~= encoding(Json::Array(items)).drop_last()
            + seq![','] + encoding(item) + seq![']']);
    }
    if members.len() > 0 {
        assert(members.push((key, item)).drop_last() =~= members);
        assert(encoding(Json::Object(members.push((key, item)))) =~= encoding(
            Json::Object(members),
        ).drop_last() + seq![','] + quoted(key) + seq![':'] + encoding(item) + seq!['}']);
    }
}

/// Values that hold no others have one encoding each.
pub proof fn law_plain_values_are_spelled_out(n: int, spelling: Seq<char>, s: Seq<char>)
    ensures
        encoding(Json::Null) == "null"@,
        encoding(Json::Bool(true)) == "true"@,
        encoding(Json::Bool(false)) == "false"@,
        encoding(Json::Int(n)) == signed_decimal(n),
        encoding(Json::Float(spelling)) == spelling,
        encoding(Json::Str(s)) == quoted(s),
{
    reveal_strlit("null");
    reveal_strlit("true");
    reveal_strlit("false");
    assert(encoding(Json::Null) =~= "null"@);
    assert(encoding(Json::Bool(true)) =~= "true"@);
    assert(encoding(Json::Bool(false)) =~= "false"@);
}

} // verus!
