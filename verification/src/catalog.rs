//! Names that are sighted in records, each time with a type of value.
//!
//! A record's sightings form a batch. What a report says of a name follows from
//! the batches: in how many of them it occurs, and with which types.

use crate::json::value::Kind;
use crate::tally::{law_times, times};
use vstd::prelude::*;

verus! {

/// A name, and the type of the value found there.
pub struct Sighting {
    pub name: Seq<char>,
    pub kind: Kind,
}

/// The sightings of all batches, in order.
pub open spec fn all_sightings(batches: Seq<Seq<Sighting>>) -> Seq<Sighting>
    decreases batches.len(),
{
    if batches.len() == 0 {
        Seq::empty()
    } else {
        all_sightings(batches.drop_last()) + batches.last()
    }
}

/// The names of some sightings.
pub open spec fn names_of(sightings: Seq<Sighting>) -> Seq<Seq<char>> {
    sightings.map_values(|s: Sighting| s.name)
}

/// The types seen under a name, in order.
pub open spec fn kinds_at(sightings: Seq<Sighting>, name: Seq<char>) -> Seq<Kind>
    decreases sightings.len(),
{
    if sightings.len() == 0 {
        Seq::empty()
    } else if sightings.last().name == name {
        kinds_at(sightings.drop_last(), name).push(sightings.last().kind)
    } else {
        kinds_at(sightings.drop_last(), name)
    }
}

/// In how many batches a name occurs.
pub open spec fn batches_with(batches: Seq<Seq<Sighting>>, name: Seq<char>) -> nat
    decreases batches.len(),
{
    if batches.len() == 0 {
        0
    } else if names_of(batches.last()).contains(name) {
        batches_with(batches.drop_last(), name) + 1
    } else {
        batches_with(batches.drop_last(), name)
    }
}

/// The last batch in which a name occurs, counting from 1; 0 if there is none.
pub open spec fn last_with(batches: Seq<Seq<Sighting>>, name: Seq<char>) -> nat
    decreases batches.len(),
{
    if batches.len() == 0 {
        0
    } else if names_of(batches.last()).contains(name) {
        batches.len()
    } else {
        last_with(batches.drop_last(), name)
    }
}

/// The batches with one more sighting in the last of them.
pub open spec fn extended(batches: Seq<Seq<Sighting>>, sighting: Sighting) -> Seq<Seq<Sighting>> {
    batches.drop_last().push(batches.last().push(sighting))
}

/// A name occurs in no more batches than there are sightings of it, nor in more
/// than there are batches.
pub proof fn law_batches_with(batches: Seq<Seq<Sighting>>, name: Seq<char>)
    ensures
        batches_with(batches, name) <= batches.len(),
        batches_with(batches, name) <= kinds_at(all_sightings(batches), name).len(),
        last_with(batches, name) <= batches.len(),
    decreases batches.len(),
{
    if batches.len() > 0 {
        law_batches_with(batches.drop_last(), name);
        lemma_kinds_concat(all_sightings(batches.drop_last()), batches.last(), name);
        if names_of(batches.last()).contains(name) {
            lemma_kinds_at_some(batches.last(), name);
        }
    }
}

pub(crate) proof fn lemma_kinds_concat(a: Seq<Sighting>, b: Seq<Sighting>, name: Seq<char>)
    ensures
        kinds_at(a + b, name) == kinds_at(a, name) + kinds_at(b, name),
    decreases b.len(),
{
    if b.len() == 0 {
        assert(a + b =~= a);
        assert(kinds_at(a, name) + kinds_at(b, name) =~= kinds_at(a, name));
    } else {
        lemma_kinds_concat(a, b.drop_last(), name);
        assert((a + b).drop_last() =~= a + b.drop_last());
        assert(kinds_at(a + b, name) =~= kinds_at(a, name) + kinds_at(b, name));
    }
}

proof fn lemma_kinds_at_some(sightings: Seq<Sighting>, name: Seq<char>)
    requires
        names_of(sightings).contains(name),
    ensures
        kinds_at(sightings, name).len() > 0,
    decreases sightings.len(),
{
    let k = choose|k: int| 0 <= k < names_of(sightings).len() && names_of(sightings)[k] == name;
    assert(sightings[k].name == name);
    if sightings.last().name != name {
        let head = sightings.drop_last();
        assert(names_of(head)[k] == name);
        lemma_kinds_at_some(head, name);
    }
}

/// As many types are seen under a name as there are sightings of it.
pub(crate) proof fn lemma_kinds_at_len(sightings: Seq<Sighting>, name: Seq<char>)
    ensures
        kinds_at(sightings, name).len() == times(names_of(sightings), name),
        kinds_at(sightings, name).len() <= sightings.len(),
    decreases sightings.len(),
{
    if sightings.len() > 0 {
        lemma_kinds_at_len(sightings.drop_last(), name);
        assert(names_of(sightings).drop_last() =~= names_of(sightings.drop_last()));
        assert(names_of(sightings).last() == sightings.last().name);
    }
}

/// What one more sighting does to what is known of a name.
pub(crate) proof fn lemma_extended(
    batches: Seq<Seq<Sighting>>,
    sighting: Sighting,
    name: Seq<char>,
)
    requires
        batches.len() > 0,
    ensures
        extended(batches, sighting).len() == batches.len(),
        all_sightings(extended(batches, sighting)) == all_sightings(batches).push(sighting),
        names_of(all_sightings(extended(batches, sighting))) == names_of(
            all_sightings(batches),
        ).push(sighting.name),
        kinds_at(all_sightings(extended(batches, sighting)), name) == if sighting.name == name {
            kinds_at(all_sightings(batches), name).push(sighting.kind)
        } else {
            kinds_at(all_sightings(batches), name)
        },
        batches_with(extended(batches, sighting), name) == if sighting.name == name && last_with(
            batches,
            name,
        ) < batches.len() {
            batches_with(batches, name) + 1
        } else {
            batches_with(batches, name)
        },
        last_with(extended(batches, sighting), name) == if sighting.name == name {
            batches.len()
        } else {
            last_with(batches, name)
        },
{
    let more = extended(batches, sighting);
    let head = batches.drop_last();
    let last = batches.last();
    assert(more.drop_last() =~= head);
    assert(more.last() == last.push(sighting));
    assert(all_sightings(more) =~= all_sightings(batches).push(sighting));
    assert(all_sightings(more).drop_last() =~= all_sightings(batches));
    assert(names_of(all_sightings(more)) =~= names_of(all_sightings(batches)).push(sighting.name));
    assert(names_of(last.push(sighting)) =~= names_of(last).push(sighting.name));
    law_batches_with(head, name);
    if names_of(last).contains(name) {
        let k = choose|k: int| 0 <= k < names_of(last).len() && names_of(last)[k] == name;
        assert(names_of(last.push(sighting))[k] == name);
    }
    if sighting.name == name {
        assert(names_of(last.push(sighting))[last.len() as int] == name);
    } else if names_of(last.push(sighting)).contains(name) {
        let k = choose|k: int|
            0 <= k < names_of(last.push(sighting)).len() && names_of(last.push(sighting))[k]
                == name;
        assert(names_of(last)[k] == name);
    }
}

/// Nothing is known of a name before it is sighted.
pub(crate) proof fn lemma_unseen(batches: Seq<Seq<Sighting>>, name: Seq<char>)
    requires
        !names_of(all_sightings(batches)).contains(name),
    ensures
        batches_with(batches, name) == 0,
        last_with(batches, name) == 0,
        kinds_at(all_sightings(batches), name) == Seq::<Kind>::empty(),
    decreases batches.len(),
{
    law_times(names_of(all_sightings(batches)), name);
    lemma_kinds_at_len(all_sightings(batches), name);
    if batches.len() > 0 {
        let head = batches.drop_last();
        let earlier = all_sightings(head);
        let all = all_sightings(batches);
        if names_of(earlier).contains(name) {
            let k = choose|k: int| 0 <= k < names_of(earlier).len() && names_of(earlier)[k] == name;
            assert(names_of(all)[k] == name);
        }
        if names_of(batches.last()).contains(name) {
            let k = choose|k: int|
                0 <= k < names_of(batches.last()).len() && names_of(batches.last())[k] == name;
            assert(names_of(all)[earlier.len() + k] == name);
        }
        lemma_unseen(head, name);
    }
}

/// An empty batch changes nothing.
pub(crate) proof fn lemma_open_batch(batches: Seq<Seq<Sighting>>, name: Seq<char>)
    ensures
        all_sightings(batches.push(Seq::empty())) == all_sightings(batches),
        batches_with(batches.push(Seq::empty()), name) == batches_with(batches, name),
        last_with(batches.push(Seq::empty()), name) == last_with(batches, name),
        last_with(batches, name) <= batches.len(),
{
    let more = batches.push(Seq::empty());
    assert(more.drop_last() =~= batches);
    assert(all_sightings(more) =~= all_sightings(batches));
    assert(names_of(more.last()).len() == 0);
    law_batches_with(batches, name);
}

} // verus!
