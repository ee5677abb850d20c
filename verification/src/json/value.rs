//! JSON values.

use crate::text;
use vstd::prelude::*;

verus! {

/// What a JSON value is, as mathematics. An object keeps its members in order,
/// repeated keys included. A number that is no 64-bit integer is known by its
/// spelling.
pub enum Json {
    Null,
    Bool(bool),
    Int(int),
    Float(Seq<char>),
    Str(Seq<char>),
    Array(Seq<Json>),
    Object(Seq<(Seq<char>, Json)>),
}

/// The type of a JSON value.
#[derive(Debug, Clone, Copy, PartialEq, Eq, Structural)]
pub enum Kind {
    Null,
    Bool,
    Int,
    Float,
    Str,
    Array,
    Object,
}

/// The name of a type, as reports show it.
pub open spec fn kind_name(kind: Kind) -> Seq<char> {
    match kind {
        Kind::Null => "null"@,
        Kind::Bool => "bool"@,
        Kind::Int => "int"@,
        Kind::Float => "float"@,
        Kind::Str => "string"@,
        Kind::Array => "array"@,
        Kind::Object => "object"@,
    }
}

/// The type of a value.
pub open spec fn kind_of(json: Json) -> Kind {
    match json {
        Json::Null => Kind::Null,
        Json::Bool(_) => Kind::Bool,
        Json::Int(_) => Kind::Int,
        Json::Float(_) => Kind::Float,
        Json::Str(_) => Kind::Str,
        Json::Array(_) => Kind::Array,
        Json::Object(_) => Kind::Object,
    }
}

/// The value of the first member with the given key.
pub open spec fn member(members: Seq<(Seq<char>, Json)>, key: Seq<char>) -> Option<Json>
    decreases members.len(),
{
    if members.len() == 0 {
        None
    } else if members[0].0 == key {
        Some(members[0].1)
    } else {
        member(members.skip(1), key)
    }
}

/// How many values a value consists of, itself included.
pub open spec fn size(json: Json) -> nat
    decreases json,
{
    match json {
        Json::Array(items) => 1 + items_size(items),
        Json::Object(members) => 1 + members_size(members),
        _ => 1,
    }
}

/// How many values some array elements consist of.
pub open spec fn items_size(items: Seq<Json>) -> nat
    decreases items,
{
    if items.len() == 0 {
        0
    } else {
        items_size(items.drop_last()) + size(items.last())
    }
}

/// How many values some object members consist of.
pub open spec fn members_size(members: Seq<(Seq<char>, Json)>) -> nat
    decreases members,
{
    if members.len() == 0 {
        0
    } else {
        members_size(members.drop_last()) + size(members.last().1)
    }
}

/// A JSON value.
#[derive(Debug, PartialEq)]
pub enum Value {
    Null,
    Bool(bool),
    /// An integer that fits 64 bits.
    Int(i64),
    /// Any other number, as it was spelled.
    Float(String),
    Str(String),
    Array(Vec<Value>),
    /// The members in order, repeated keys included.
    Object(Vec<(String, Value)>),
}

/// The values behind some references.
pub open spec fn jsons(values: Seq<&Value>) -> Seq<Json> {
    values.map_values(|v: &Value| v.json())
}

impl Kind {
    /// The name of the type, as reports show it.
    pub fn name(self) -> (name: &'static str)
        ensures
            name@ == kind_name(self),
    {
        match self {
            Kind::Null => "null",
            Kind::Bool => "bool",
            Kind::Int => "int",
            Kind::Float => "float",
            Kind::Str => "string",
            Kind::Array => "array",
            Kind::Object => "object",
        }
    }
}

impl Value {
    /// The value as mathematics.
    pub open spec fn json(&self) -> Json
        decreases self,
    {
        match self {
            Value::Null => Json::Null,
            Value::Bool(b) => Json::Bool(*b),
            Value::Int(n) => Json::Int(*n as int),
            Value::Float(s) => Json::Float(s@),
            Value::Str(s) => Json::Str(s@),
            Value::Array(items) => Json::Array(
                Seq::new(
                    items@.len(),
                    |i: int|
                        if 0 <= i < items@.len() {
                            items@[i].json()
                        } else {
                            Json::Null
                        },
                ),
            ),
            Value::Object(members) => Json::Object(
                Seq::new(
                    members@.len(),
                    |i: int|
                        if 0 <= i < members@.len() {
                            (members@[i].0@, members@[i].1.json())
                        } else {
                            (Seq::empty(), Json::Null)
                        },
                ),
            ),
        }
    }

    /// The type of the value.
    pub fn kind(&self) -> (kind: Kind)
        ensures
            kind == kind_of(self.json()),
    {
        match self {
            Value::Null => Kind::Null,
            Value::Bool(_) => Kind::Bool,
            Value::Int(_) => Kind::Int,
            Value::Float(_) => Kind::Float,
            Value::Str(_) => Kind::Str,
            Value::Array(_) => Kind::Array,
            Value::Object(_) => Kind::Object,
        }
    }

    /// The value of the first member with the given key, if this is an object
    /// that has one.
    pub fn get(&self, key: &str) -> (found: Option<&Value>)
        ensures
            match self.json() {
                Json::Object(members) => match found {
                    Some(v) => member(members, key@) == Some(v.json()),
                    None => member(members, key@) is None,
                },
                _ => found is None,
            },
    {
        match self {
            Value::Object(members) => {
                let ghost model = self.json()->Object_0;
                let mut i: usize = 0;
                assert(model.skip(0) =~= model);
                while i < members.len()
                    invariant
                        i <= members@.len(),
                        self == Value::Object(*members),
                        model == self.json()->Object_0,
                        member(model, key@) == member(model.skip(i as int), key@),
                    decreases members@.len() - i,
                {
                    assert(model.skip(i as int)[0] == (members@[i as int].0@, members@[i as int].1.json()));
                    if text::same(members[i].0.as_str(), key) {
                        return Some(&members[i].1);
                    }
                    assert(model.skip(i as int).skip(1) =~= model.skip(i + 1));
                    i = i + 1;
                }
                None
            },
            _ => None,
        }
    }

    /// The elements, if this is an array.
    pub fn as_array(&self) -> (items: Option<&Vec<Value>>)
        ensures
            match self.json() {
                Json::Array(model) => items matches Some(v) && model == Seq::new(
                    v@.len(),
                    |i: int| v@[i].json(),
                ),
                _ => items is None,
            },
    {
        match self {
            Value::Array(items) => {
                assert(self.json()->Array_0 =~= Seq::new(items@.len(), |i: int| items@[i].json()));
                Some(items)
            },
            _ => None,
        }
    }

    /// The text, if this is a string.
    pub fn as_str(&self) -> (text: Option<&str>)
        ensures
            match self.json() {
                Json::Str(model) => text matches Some(t) && t@ == model,
                _ => text is None,
            },
    {
        match self {
            Value::Str(s) => Some(s.as_str()),
            _ => None,
        }
    }
}

pub(crate) proof fn lemma_items_size_concat(a: Seq<Json>, b: Seq<Json>)
    ensures
        items_size(a + b) == items_size(a) + items_size(b),
    decreases b.len(),
{
    if b.len() == 0 {
        assert(a + b =~= a);
    } else {
        lemma_items_size_concat(a, b.drop_last());
        assert((a + b).drop_last() =~= a + b.drop_last());
    }
}

/// An element is no larger than the elements together.
pub(crate) proof fn lemma_item_size(items: Seq<Json>, k: int)
    requires
        0 <= k < items.len(),
    ensures
        size(items[k]) <= items_size(items),
    decreases items.len(),
{
    if k < items.len() - 1 {
        lemma_item_size(items.drop_last(), k);
    }
}

/// A member is no larger than the members together.
pub(crate) proof fn lemma_member_size(members: Seq<(Seq<char>, Json)>, k: int)
    requires
        0 <= k < members.len(),
    ensures
        size(members[k].1) <= members_size(members),
    decreases members.len(),
{
    if k < members.len() - 1 {
        lemma_member_size(members.drop_last(), k);
    }
}

/// Each value counts at least once.
pub(crate) proof fn lemma_items_count(items: Seq<Json>)
    ensures
        items.len() <= items_size(items),
    decreases items.len(),
{
    if items.len() > 0 {
        lemma_items_count(items.drop_last());
        assert(size(items.last()) >= 1);
    }
}

/// Each value counts at least once.
pub(crate) proof fn lemma_members_count(members: Seq<(Seq<char>, Json)>)
    ensures
        members.len() <= members_size(members),
    decreases members.len(),
{
    if members.len() > 0 {
        lemma_members_count(members.drop_last());
        assert(size(members.last().1) >= 1);
    }
}

/// The member that is found under a key is the first with that key.
pub proof fn law_first_member_is_found(members: Seq<(Seq<char>, Json)>, key: Seq<char>)
    ensures
        match member(members, key) {
            Some(found) => exists|k: int|
                0 <= k < members.len() && #[trigger] members[k] == (key, found) && forall|j: int|
                    0 <= j < k ==> (#[trigger] members[j]).0 != key,
            None => forall|j: int| 0 <= j < members.len() ==> (#[trigger] members[j]).0 != key,
        },
    decreases members.len(),
{
    if members.len() > 0 && members[0].0 != key {
        let rest = members.skip(1);
        law_first_member_is_found(rest, key);
        match member(rest, key) {
            Some(found) => {
                let k = choose|k: int|
                    0 <= k < rest.len() && #[trigger] rest[k] == (key, found) && forall|j: int|
                        0 <= j < k ==> (#[trigger] rest[j]).0 != key;
                assert(members[k + 1] == (key, found));
                assert forall|j: int| 0 <= j < k + 1 implies (#[trigger] members[j]).0 != key by {
                    if j > 0 {
                        assert(rest[j - 1] == members[j]);
                    }
                }
            },
            None => {
                assert forall|j: int| 0 <= j < members.len() implies (#[trigger] members[j]).0
                    != key by {
                    if j > 0 {
                        assert(rest[j - 1] == members[j]);
                    }
                }
            },
        }
    } else if members.len() > 0 {
        assert(members[0] == (key, members[0].1));
    }
}

/// Every type has its name: of the seven, each value has the one that its form
/// gives it, whatever it holds.
pub proof fn law_types_have_names(json: Json)
    ensures
        kind_name(kind_of(json)) == match json {
            Json::Null => "null"@,
            Json::Bool(_) => "bool"@,
            Json::Int(_) => "int"@,
            Json::Float(_) => "float"@,
            Json::Str(_) => "string"@,
            Json::Array(_) => "array"@,
            Json::Object(_) => "object"@,
        },
{
}

} // verus!
