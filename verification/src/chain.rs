//! What a walk through a record meets: every value below it, each at the end of a
//! chain of members and elements.
//!
//! A chain names places only, so it says where a value is without regard to how a
//! walk gets there.

use crate::catalog::{all_sightings, batches_with, kinds_at, lemma_kinds_concat, names_of, Sighting};
use crate::json::value::{kind_of, Json, Kind};
use crate::lines::LineModel;
use crate::record::{finding, law_lines_are_taken_one_by_one, records, Finding, Problem};
use crate::schema::{
    element_path, item_visits, lemma_seen_in_a_batch, lists, lists_paths, member_path,
    member_visits, path_batches, visits, PathStats, Schema, MAX_PATHS,
};
use crate::stats::{
    count_sum, differs_first, law_counts_add_up, lemma_batch_is_sighted, lemma_turned_away,
};
use crate::tally::{distinct, law_distinct, lemma_tracked_items, times, tracked_items};
use crate::text::law_order_goes_by_the_first_difference;
use vstd::prelude::*;
use vstd::utf8::encode_utf8;

verus! {

/// One link of a chain: the place of a member in an object, or of an element in an
/// array.
pub enum Link {
    Member(int),
    Element(int),
}

/// The value at the end of a chain, if the chain leads to one.
pub open spec fn value_along(json: Json, chain: Seq<Link>) -> Option<Json>
    decreases chain.len(),
{
    if chain.len() == 0 {
        Some(json)
    } else {
        match (json, chain[0]) {
            (Json::Object(members), Link::Member(k)) => if 0 <= k < members.len() {
                value_along(members[k].1, chain.skip(1))
            } else {
                None
            },
            (Json::Array(items), Link::Element(k)) => if 0 <= k < items.len() {
                value_along(items[k], chain.skip(1))
            } else {
                None
            },
            _ => None,
        }
    }
}

/// How the end of a chain is written, after the path of its start: names with dots
/// between them, and `[]` for each element.
pub open spec fn path_along(json: Json, chain: Seq<Link>, path: Seq<char>) -> Seq<char>
    decreases chain.len(),
{
    if chain.len() == 0 {
        path
    } else {
        match (json, chain[0]) {
            (Json::Object(members), Link::Member(k)) => path_along(
                members[k].1,
                chain.skip(1),
                if path.len() == 0 {
                    members[k].0
                } else {
                    path + seq!['.'] + members[k].0
                },
            ),
            (Json::Array(items), Link::Element(k)) => path_along(
                items[k],
                chain.skip(1),
                path + seq!['[', ']'],
            ),
            _ => path,
        }
    }
}

/// The place that a link names.
pub open spec fn place(link: Link) -> int {
    match link {
        Link::Member(k) => k,
        Link::Element(k) => k,
    }
}

/// A chain comes before its continuations, and before a chain that goes on at a
/// later place.
pub open spec fn comes_before(a: Seq<Link>, b: Seq<Link>) -> bool
    decreases a.len(),
{
    b.len() > 0 && (a.len() == 0 || place(a[0]) < place(b[0]) || (a[0] == b[0] && comes_before(
        a.skip(1),
        b.skip(1),
    )))
}

/// A chain of at least one and at most `depth` links leads to a value.
pub open spec fn leads(json: Json, depth: nat, chain: Seq<Link>) -> bool {
    1 <= chain.len() <= depth && value_along(json, chain) is Some
}

/// A sighting is that of the value at the end of a chain.
pub open spec fn is_met(
    sighting: Sighting,
    json: Json,
    path: Seq<char>,
    depth: nat,
    chain: Seq<Link>,
) -> bool {
    &&& leads(json, depth, chain)
    &&& sighting.name == path_along(json, chain, path)
    &&& sighting.kind == kind_of(value_along(json, chain)->0)
}

/// Sightings are those along some chains, one for each. The chains are all that
/// lead to a value, in order.
pub open spec fn met_along(
    sightings: Seq<Sighting>,
    json: Json,
    path: Seq<char>,
    depth: nat,
    chains: Seq<Seq<Link>>,
) -> bool {
    &&& chains.len() == sightings.len()
    &&& forall|i: int|
        0 <= i < chains.len() ==> is_met(sightings[i], json, path, depth, #[trigger] chains[i])
    &&& forall|i: int, j: int|
        0 <= i < j < chains.len() ==> comes_before(#[trigger] chains[i], #[trigger] chains[j])
    &&& forall|chain: Seq<Link>| #[trigger] leads(json, depth, chain) ==> chains.contains(chain)
}

/// The chains that start with a link and go on along others.
spec fn after(link: Link, chains: Seq<Seq<Link>>) -> Seq<Seq<Link>> {
    chains.map_values(|chain: Seq<Link>| seq![link] + chain)
}

/// What is met with one more member or element: what was met before, the new value
/// itself, and what is below it.
proof fn lemma_one_more(
    earlier: Seq<Sighting>,
    own: Sighting,
    below: Seq<Sighting>,
    before: Json,
    now: Json,
    path: Seq<char>,
    link: Link,
    child: Json,
    here: Seq<char>,
    depth: nat,
    old_chains: Seq<Seq<Link>>,
    new_chains: Seq<Seq<Link>>,
) -> (chains: Seq<Seq<Link>>)
    requires
        met_along(earlier, before, path, depth + 1, old_chains),
        met_along(below, child, here, depth, new_chains),
        own == (Sighting { name: here, kind: kind_of(child) }),
        forall|chain: Seq<Link>|
            chain.len() > 0 && chain[0] == link ==> #[trigger] value_along(now, chain)
                == value_along(child, chain.skip(1)) && path_along(now, chain, path) == path_along(
                child,
                chain.skip(1),
                here,
            ),
        forall|chain: Seq<Link>|
            chain.len() > 0 && #[trigger] value_along(before, chain) is Some ==> value_along(
                now,
                chain,
            ) == value_along(before, chain) && path_along(now, chain, path) == path_along(
                before,
                chain,
                path,
            ) && place(chain[0]) < place(link),
        forall|chain: Seq<Link>|
            chain.len() > 0 && #[trigger] value_along(now, chain) is Some ==> chain[0] == link
                || value_along(before, chain) is Some,
    ensures
        met_along(earlier.push(own) + below, now, path, depth + 1, chains),
{
    let deeper = after(link, new_chains);
    let chains = old_chains.push(seq![link]) + deeper;
    let seen = earlier.push(own) + below;
    let n = old_chains.len() as int;
    assert(seq![link].skip(1) =~= Seq::<Link>::empty());
    assert forall|k: int| 0 <= k < new_chains.len() implies (#[trigger] deeper[k]).skip(1)
        == new_chains[k] && deeper[k].len() == new_chains[k].len() + 1 && deeper[k][0] == link by {
        assert((seq![link] + new_chains[k]).skip(1) =~= new_chains[k]);
    }
    assert forall|i: int| 0 <= i < chains.len() implies is_met(
        seen[i],
        now,
        path,
        depth + 1,
        #[trigger] chains[i],
    ) by {
        if i < n {
            assert(chains[i] == old_chains[i]);
            assert(is_met(earlier[i], before, path, depth + 1, old_chains[i]));
            assert(value_along(before, chains[i]) is Some);
        } else if i == n {
            assert(chains[i] == seq![link]);
            assert(value_along(now, chains[i]) == value_along(child, Seq::<Link>::empty()));
        } else {
            let k = i - n - 1;
            assert(chains[i] == deeper[k]);
            assert(is_met(below[k], child, here, depth, new_chains[k]));
            assert(value_along(now, chains[i]) == value_along(child, new_chains[k]));
        }
    }
    assert forall|i: int, j: int| 0 <= i < j < chains.len() implies comes_before(
        #[trigger] chains[i],
        #[trigger] chains[j],
    ) by {
        if i < n {
            assert(chains[i] == old_chains[i]);
            assert(is_met(earlier[i], before, path, depth + 1, old_chains[i]));
            assert(value_along(before, chains[i]) is Some);
            if j < n {
                assert(chains[j] == old_chains[j]);
            } else if j > n {
                assert(chains[j] == deeper[j - n - 1]);
            } else {
                assert(chains[j] == seq![link]);
            }
        } else {
            assert(chains[j] == deeper[j - n - 1]);
            assert(is_met(below[j - n - 1], child, here, depth, new_chains[j - n - 1]));
            if i == n {
                assert(chains[i].skip(1) =~= Seq::empty());
                assert(comes_before(chains[i].skip(1), chains[j].skip(1)));
            } else {
                assert(chains[i] == deeper[i - n - 1]);
                assert(comes_before(new_chains[i - n - 1], new_chains[j - n - 1]));
            }
        }
    }
    assert forall|chain: Seq<Link>| #[trigger] leads(now, depth + 1, chain) implies chains.contains(
        chain,
    ) by {
        assert(value_along(now, chain) is Some);
        if chain[0] == link {
            let rest = chain.skip(1);
            assert(chain =~= seq![link] + rest);
            if rest.len() == 0 {
                assert(chain =~= seq![link]);
                assert(chains[n] == chain);
            } else {
                assert(leads(child, depth, rest));
                let k = choose|k: int| 0 <= k < new_chains.len() && new_chains[k] == rest;
                assert(deeper[k] == chain);
                assert(chains[n + 1 + k] == chain);
            }
        } else {
            assert(leads(before, depth + 1, chain));
            let k = choose|k: int| 0 <= k < old_chains.len() && old_chains[k] == chain;
            assert(chains[k] == chain);
        }
    }
    chains
}

/// Nothing is met where no chain leads anywhere.
proof fn lemma_nothing(json: Json, path: Seq<char>, depth: nat)
    requires
        forall|chain: Seq<Link>| !(#[trigger] leads(json, depth, chain)),
    ensures
        met_along(Seq::empty(), json, path, depth, Seq::empty()),
{
}

proof fn lemma_visits(json: Json, path: Seq<char>, levels: nat) -> (chains: Seq<Seq<Link>>)
    ensures
        met_along(visits(json, path, levels), json, path, levels, chains),
    decreases levels, 0nat, 0nat,
{
    if levels > 0 {
        match json {
            Json::Object(members) => lemma_member_visits(members, path, (levels - 1) as nat),
            Json::Array(items) => lemma_item_visits(items, path, (levels - 1) as nat),
            _ => {
                lemma_nothing(json, path, levels);
                Seq::empty()
            },
        }
    } else {
        lemma_nothing(json, path, levels);
        Seq::empty()
    }
}

proof fn lemma_member_visits(
    members: Seq<(Seq<char>, Json)>,
    path: Seq<char>,
    levels: nat,
) -> (chains: Seq<Seq<Link>>)
    ensures
        met_along(
            member_visits(members, path, levels),
            Json::Object(members),
            path,
            levels + 1,
            chains,
        ),
    decreases levels, 1nat, members.len(),
{
    if members.len() == 0 {
        lemma_nothing(Json::Object(members), path, levels + 1);
        Seq::empty()
    } else {
        let head = members.drop_last();
        let (key, child) = members.last();
        let here = member_path(path, key);
        let old_chains = lemma_member_visits(head, path, levels);
        let new_chains = lemma_visits(child, here, levels);
        let link = Link::Member(members.len() - 1);
        let before = Json::Object(head);
        let now = Json::Object(members);
        assert forall|chain: Seq<Link>|
            chain.len() > 0 && #[trigger] value_along(now, chain) is Some implies chain[0] == link
            || value_along(before, chain) is Some by {
            match chain[0] {
                Link::Member(k) => {
                    if k < head.len() {
                        assert(head[k] == members[k]);
                    }
                },
                _ => {},
            }
        }
        lemma_one_more(
            member_visits(head, path, levels),
            Sighting { name: here, kind: kind_of(child) },
            visits(child, here, levels),
            before,
            now,
            path,
            link,
            child,
            here,
            levels,
            old_chains,
            new_chains,
        )
    }
}

proof fn lemma_item_visits(items: Seq<Json>, path: Seq<char>, levels: nat) -> (chains: Seq<
    Seq<Link>,
>)
    ensures
        met_along(
            item_visits(items, element_path(path), levels),
            Json::Array(items),
            path,
            levels + 1,
            chains,
        ),
    decreases levels, 1nat, items.len(),
{
    if items.len() == 0 {
        lemma_nothing(Json::Array(items), path, levels + 1);
        Seq::empty()
    } else {
        let head = items.drop_last();
        let child = items.last();
        let here = element_path(path);
        let old_chains = lemma_item_visits(head, path, levels);
        let new_chains = lemma_visits(child, here, levels);
        let link = Link::Element(items.len() - 1);
        let before = Json::Array(head);
        let now = Json::Array(items);
        assert forall|chain: Seq<Link>|
            chain.len() > 0 && #[trigger] value_along(now, chain) is Some implies chain[0] == link
            || value_along(before, chain) is Some by {
            match chain[0] {
                Link::Element(k) => {
                    if k < head.len() {
                        assert(head[k] == items[k]);
                    }
                },
                _ => {},
            }
        }
        lemma_one_more(
            item_visits(head, here, levels),
            Sighting { name: here, kind: kind_of(child) },
            visits(child, here, levels),
            before,
            now,
            path,
            link,
            child,
            here,
            levels,
            old_chains,
            new_chains,
        )
    }
}

/// A walk misses nothing and repeats nothing: it meets a value for each chain of at
/// most `depth` members and elements that leads from the record to one, with the
/// path and the type at its end, in the order of the chains.
pub proof fn law_walks_meet_every_value(json: Json, depth: nat) -> (chains: Seq<Seq<Link>>)
    ensures
        met_along(visits(json, Seq::empty(), depth), json, Seq::empty(), depth, chains),
{
    lemma_visits(json, Seq::empty(), depth)
}

/// The chains that lead to a value with the given path.
pub open spec fn chains_to(json: Json, depth: nat, name: Seq<char>) -> Set<Seq<Link>> {
    Set::new(
        |chain: Seq<Link>|
            leads(json, depth, chain) && path_along(json, chain, Seq::empty()) == name,
    )
}

/// The chains that lead to a value with the given path and type.
pub open spec fn chains_with(json: Json, depth: nat, name: Seq<char>, kind: Kind) -> Set<
    Seq<Link>,
> {
    Set::new(
        |chain: Seq<Link>|
            leads(json, depth, chain) && path_along(json, chain, Seq::empty()) == name && kind_of(
                value_along(json, chain)->0,
            ) == kind,
    )
}

proof fn lemma_not_before_itself(chain: Seq<Link>)
    ensures
        !comes_before(chain, chain),
    decreases chain.len(),
{
    if chain.len() > 0 {
        lemma_not_before_itself(chain.skip(1));
    }
}

/// Of different chains, as many are in a set as in a list.
proof fn lemma_set_of_chains(chains: Seq<Seq<Link>>, keep: spec_fn(Seq<Link>) -> bool)
    requires
        chains.no_duplicates(),
    ensures
        Set::new(|chain: Seq<Link>| chains.contains(chain) && keep(chain)).finite(),
        Set::new(|chain: Seq<Link>| chains.contains(chain) && keep(chain)).len() == chains.filter(
            keep,
        ).len(),
    decreases chains.len(),
{
    reveal(Seq::filter);
    let all = Set::new(|chain: Seq<Link>| chains.contains(chain) && keep(chain));
    if chains.len() == 0 {
        assert(all =~= Set::empty());
    } else {
        let head = chains.drop_last();
        let last = chains.last();
        assert forall|i: int, j: int|
            0 <= i < head.len() && 0 <= j < head.len() && i != j implies head[i] != head[j] by {
            assert(chains[i] != chains[j]);
        }
        lemma_set_of_chains(head, keep);
        let fewer = Set::new(|chain: Seq<Link>| head.contains(chain) && keep(chain));
        assert(!head.contains(last)) by {
            if head.contains(last) {
                let k = choose|k: int| 0 <= k < head.len() && head[k] == last;
                assert(chains[k] != chains[chains.len() - 1]);
            }
        }
        assert forall|chain: Seq<Link>| #[trigger] chains.contains(chain) <==> head.contains(chain)
            || chain == last by {
            if chains.contains(chain) {
                let k = choose|k: int| 0 <= k < chains.len() && chains[k] == chain;
                if k < head.len() {
                    assert(head[k] == chain);
                }
            }
            if head.contains(chain) {
                let k = choose|k: int| 0 <= k < head.len() && head[k] == chain;
                assert(chains[k] == chain);
            }
            if chain == last {
                assert(chains[chains.len() - 1] == chain);
            }
        }
        if keep(last) {
            assert(all =~= fewer.insert(last));
            assert(!fewer.contains(last));
        } else {
            assert(all =~= fewer);
        }
    }
}

/// What is met under a name, and with a type, is met along as many chains.
proof fn lemma_met_number(
    seen: Seq<Sighting>,
    chains: Seq<Seq<Link>>,
    json: Json,
    depth: nat,
    name: Seq<char>,
    kind: Kind,
)
    requires
        chains.len() == seen.len(),
        forall|i: int|
            0 <= i < chains.len() ==> is_met(
                seen[i],
                json,
                Seq::empty(),
                depth,
                #[trigger] chains[i],
            ),
    ensures
        kinds_at(seen, name).len() == chains.filter(
            |chain: Seq<Link>| path_along(json, chain, Seq::empty()) == name,
        ).len(),
        times(kinds_at(seen, name), kind) == chains.filter(
            |chain: Seq<Link>|
                path_along(json, chain, Seq::empty()) == name && kind_of(
                    value_along(json, chain)->0,
                ) == kind,
        ).len(),
    decreases seen.len(),
{
    reveal(Seq::filter);
    if seen.len() > 0 {
        let n = seen.len() - 1;
        let head = chains.drop_last();
        assert forall|i: int| 0 <= i < head.len() implies is_met(
            seen.drop_last()[i],
            json,
            Seq::empty(),
            depth,
            #[trigger] head[i],
        ) by {
            assert(is_met(seen[i], json, Seq::empty(), depth, chains[i]));
        }
        lemma_met_number(seen.drop_last(), head, json, depth, name, kind);
        assert(is_met(seen[n], json, Seq::empty(), depth, chains[n]));
        if seen[n].name == name {
            let before = kinds_at(seen.drop_last(), name);
            assert(kinds_at(seen, name).drop_last() =~= before);
        }
    }
}

/// A path occurs in a record once for each chain that leads to it, and with a type
/// once for each chain that leads to a value of that type.
pub proof fn law_paths_occur_once_for_each_chain(
    json: Json,
    depth: nat,
    name: Seq<char>,
    kind: Kind,
)
    ensures
        chains_to(json, depth, name).finite(),
        chains_with(json, depth, name, kind).finite(),
        kinds_at(visits(json, Seq::empty(), depth), name).len() == chains_to(
            json,
            depth,
            name,
        ).len(),
        times(kinds_at(visits(json, Seq::empty(), depth), name), kind) == chains_with(
            json,
            depth,
            name,
            kind,
        ).len(),
{
    let seen = visits(json, Seq::empty(), depth);
    let chains = law_walks_meet_every_value(json, depth);
    assert forall|i: int, j: int|
        0 <= i < chains.len() && 0 <= j < chains.len() && i != j implies chains[i] != chains[j] by {
        lemma_not_before_itself(chains[i]);
        if i < j {
            assert(comes_before(chains[i], chains[j]));
        } else {
            assert(comes_before(chains[j], chains[i]));
        }
    }
    assert(chains.no_duplicates());
    let named = |chain: Seq<Link>| path_along(json, chain, Seq::empty()) == name;
    let typed = |chain: Seq<Link>|
        path_along(json, chain, Seq::empty()) == name && kind_of(value_along(json, chain)->0)
            == kind;
    lemma_met_number(seen, chains, json, depth, name, kind);
    lemma_set_of_chains(chains, named);
    lemma_set_of_chains(chains, typed);
    assert forall|chain: Seq<Link>| chains.contains(chain) <==> #[trigger] leads(
        json,
        depth,
        chain,
    ) by {
        if chains.contains(chain) {
            let i = choose|i: int| 0 <= i < chains.len() && chains[i] == chain;
            assert(is_met(seen[i], json, Seq::empty(), depth, chains[i]));
        }
    }
    assert(chains_to(json, depth, name) =~= Set::new(
        |chain: Seq<Link>| chains.contains(chain) && named(chain),
    ));
    assert(chains_with(json, depth, name, kind) =~= Set::new(
        |chain: Seq<Link>| chains.contains(chain) && typed(chain),
    ));
}

/// A record holds a value with the given path.
pub open spec fn holds_path(json: Json, depth: nat, name: Seq<char>) -> bool {
    exists|chain: Seq<Link>| #[trigger]
        leads(json, depth, chain) && path_along(json, chain, Seq::empty()) == name
}

proof fn lemma_holds_path(json: Json, depth: nat, name: Seq<char>)
    ensures
        names_of(visits(json, Seq::empty(), depth)).contains(name) <==> holds_path(
            json,
            depth,
            name,
        ),
{
    let seen = visits(json, Seq::empty(), depth);
    let names = names_of(seen);
    let chains = law_walks_meet_every_value(json, depth);
    if names.contains(name) {
        let i = choose|i: int| 0 <= i < names.len() && names[i] == name;
        assert(is_met(seen[i], json, Seq::empty(), depth, chains[i]));
    }
    if holds_path(json, depth, name) {
        let chain = choose|chain: Seq<Link>| #[trigger]
            leads(json, depth, chain) && path_along(json, chain, Seq::empty()) == name;
        assert(chains.contains(chain));
        let i = choose|i: int| 0 <= i < chains.len() && chains[i] == chain;
        assert(is_met(seen[i], json, Seq::empty(), depth, chains[i]));
        assert(names[i] == name);
    }
}

proof fn lemma_times_concat(a: Seq<Kind>, b: Seq<Kind>, kind: Kind)
    ensures
        times(a + b, kind) == times(a, kind) + times(b, kind),
    decreases b.len(),
{
    if b.len() == 0 {
        assert(a + b =~= a);
    } else {
        lemma_times_concat(a, b.drop_last(), kind);
        assert((a + b).drop_last() =~= a + b.drop_last());
    }
}

proof fn lemma_batches_number(seen: Seq<Json>, depth: nat, name: Seq<char>, kind: Kind)
    ensures
        kinds_at(all_sightings(path_batches(seen, depth)), name).len() == seen.fold_left(
            0nat,
            |n: nat, record: Json| n + chains_to(record, depth, name).len(),
        ),
        times(kinds_at(all_sightings(path_batches(seen, depth)), name), kind) == seen.fold_left(
            0nat,
            |n: nat, record: Json| n + chains_with(record, depth, name, kind).len(),
        ),
        batches_with(path_batches(seen, depth), name) == seen.filter(
            |record: Json| holds_path(record, depth, name),
        ).len(),
    decreases seen.len(),
{
    reveal(Seq::filter);
    let batches = path_batches(seen, depth);
    if seen.len() > 0 {
        let head = seen.drop_last();
        let last = seen.last();
        lemma_batches_number(head, depth, name, kind);
        assert(batches.drop_last() =~= path_batches(head, depth));
        assert(batches.last() == visits(last, Seq::empty(), depth));
        lemma_kinds_concat(all_sightings(batches.drop_last()), batches.last(), name);
        lemma_times_concat(
            kinds_at(all_sightings(batches.drop_last()), name),
            kinds_at(batches.last(), name),
            kind,
        );
        law_paths_occur_once_for_each_chain(last, depth, name, kind);
        lemma_holds_path(last, depth, name);
    }
}

/// What is said of a path counts the chains that lead to it. It is present in the
/// records that hold it, it occurs once for each chain in each record, and a type
/// is counted once for each chain that leads to a value of that type.
pub proof fn law_path_statistics_count_chains(schema: Schema, i: int)
    requires
        schema.wf(),
        0 <= i < schema.path_table.values@.len(),
    ensures
        ({
            let entry = schema.path_table.values@[i];
            let seen = records(schema.history@);
            let depth = schema.depth as nat;
            &&& entry.present == seen.filter(
                |record: Json| holds_path(record, depth, entry.path@),
            ).len()
            &&& entry.occurrences == seen.fold_left(
                0nat,
                |n: nat, record: Json| n + chains_to(record, depth, entry.path@).len(),
            )
            &&& forall|k: int|
                0 <= k < entry.types@.len() ==> (#[trigger] entry.types@[k]).1 == seen.fold_left(
                    0nat,
                    |n: nat, record: Json|
                        n + chains_with(record, depth, entry.path@, entry.types@[k].0).len(),
                )
        }),
{
    let entry = schema.path_table.values@[i];
    let seen = records(schema.history@);
    let depth = schema.depth as nat;
    assert(entry.describes(schema.batches()));
    lemma_batches_number(seen, depth, entry.path@, Kind::Null);
    assert forall|k: int| 0 <= k < entry.types@.len() implies (#[trigger] entry.types@[k]).1
        == seen.fold_left(
        0nat,
        |n: nat, record: Json|
            n + chains_with(record, depth, entry.path@, entry.types@[k].0).len(),
    ) by {
        lemma_batches_number(seen, depth, entry.path@, entry.types@[k].0);
    }
}

/// Every path that a record holds within the depth is listed, unless the table has
/// turned a path away or the path is present in too few records.
pub proof fn law_every_path_is_listed(
    schema: Schema,
    paths: Seq<&PathStats>,
    min_present: nat,
    r: int,
    chain: Seq<Link>,
)
    requires
        schema.wf(),
        !schema.paths_capped,
        lists_paths(paths, schema.batches(), min_present),
        0 <= r < records(schema.history@).len(),
        leads(records(schema.history@)[r], schema.depth as nat, chain),
        records(schema.history@).filter(
            |record: Json|
                holds_path(
                    record,
                    schema.depth as nat,
                    path_along(records(schema.history@)[r], chain, Seq::empty()),
                ),
        ).len() >= min_present,
    ensures
        lists(paths, path_along(records(schema.history@)[r], chain, Seq::empty())),
{
    let seen = records(schema.history@);
    let depth = schema.depth as nat;
    let batches = schema.batches();
    let name = path_along(seen[r], chain, Seq::empty());
    let names = names_of(all_sightings(batches));
    lemma_batches_number(seen, depth, name, Kind::Null);
    lemma_holds_path(seen[r], depth, name);
    assert(holds_path(seen[r], depth, name));
    assert(batches[r] == visits(seen[r], Seq::empty(), depth));
    let k = choose|k: int| 0 <= k < names_of(batches[r]).len() && names_of(batches[r])[k] == name;
    lemma_batch_is_sighted(batches, r, k);
    law_distinct(names);
    assert(distinct(names).contains(name));
    assert(tracked_items(names, MAX_PATHS as nat).contains(name));
}

/// Every listed path is one that a record holds within the depth.
pub proof fn law_only_paths_of_records_are_listed(
    schema: Schema,
    paths: Seq<&PathStats>,
    min_present: nat,
    i: int,
)
    requires
        schema.wf(),
        lists_paths(paths, schema.batches(), min_present),
        0 <= i < paths.len(),
    ensures
        paths[i].present >= 1,
        paths[i].present >= min_present,
        paths[i].present == records(schema.history@).filter(
            |record: Json| holds_path(record, schema.depth as nat, paths[i].path@),
        ).len(),
        paths[i].occurrences == records(schema.history@).fold_left(
            0nat,
            |n: nat, record: Json|
                n + chains_to(record, schema.depth as nat, paths[i].path@).len(),
        ),
        forall|k: int|
            0 <= k < paths[i].types@.len() ==> (#[trigger] paths[i].types@[k]).1 == records(
                schema.history@,
            ).fold_left(
                0nat,
                |n: nat, record: Json|
                    n + chains_with(
                        record,
                        schema.depth as nat,
                        paths[i].path@,
                        paths[i].types@[k].0,
                    ).len(),
            ),
        count_sum(paths[i].types@) == paths[i].occurrences,
{
    let seen = records(schema.history@);
    let batches = schema.batches();
    let names = names_of(all_sightings(batches));
    assert(paths[i].describes(batches));
    lemma_batches_number(seen, schema.depth as nat, paths[i].path@, Kind::Null);
    lemma_tracked_items(names, MAX_PATHS as nat);
    assert(names.contains(paths[i].path@));
    lemma_seen_in_a_batch(batches, paths[i].path@);
    assert forall|k: int| 0 <= k < paths[i].types@.len() implies (#[trigger] paths[i].types@[k]).1
        == seen.fold_left(
        0nat,
        |n: nat, record: Json|
            n + chains_with(
                record,
                schema.depth as nat,
                paths[i].path@,
                paths[i].types@[k].0,
            ).len(),
    ) by {
        lemma_batches_number(seen, schema.depth as nat, paths[i].path@, paths[i].types@[k].0);
    }
    law_counts_add_up(kinds_at(all_sightings(batches), paths[i].path@));
}

/// Paths are listed in byte order.
pub proof fn law_paths_are_listed_in_byte_order(
    schema: Schema,
    paths: Seq<&PathStats>,
    min_present: nat,
)
    requires
        lists_paths(paths, schema.batches(), min_present),
    ensures
        forall|i: int, j: int|
            0 <= i < j < paths.len() ==> differs_first(
                (#[trigger] paths[i]).path@,
                (#[trigger] paths[j]).path@,
            ),
{
    assert forall|i: int, j: int| 0 <= i < j < paths.len() implies differs_first(
        (#[trigger] paths[i]).path@,
        (#[trigger] paths[j]).path@,
    ) by {
        law_order_goes_by_the_first_difference(
            encode_utf8(paths[i].path@),
            encode_utf8(paths[j].path@),
        );
    }
}

/// A schema counts the records and the broken lines, and its table has turned a path
/// away exactly if there are more than 2,000 different ones.
pub proof fn law_schemas_count_lines(schema: Schema)
    requires
        schema.wf(),
    ensures
        schema.records == schema.history@.filter_map(
            |line: LineModel|
                match finding(line.bytes) {
                    Finding::Record(json) => Some(json),
                    _ => None,
                },
        ).len(),
        schema.unparseable == schema.history@.filter_map(
            |line: LineModel|
                match finding(line.bytes) {
                    Finding::Broken(column, reason) => Some(
                        Problem { line: line.number, column, reason },
                    ),
                    _ => None,
                },
        ).len(),
        schema.paths_capped <==> names_of(all_sightings(schema.batches())).to_set().len() > 2000,
{
    law_lines_are_taken_one_by_one(schema.history@);
    lemma_turned_away(names_of(all_sightings(schema.batches())), 2000);
}

} // verus!
