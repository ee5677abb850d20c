//! Bounded tables of texts, and the order in which reports list their entries.

use crate::text;
use crate::text::{law_text_order, text_before, Place};
use vstd::prelude::*;

verus! {

/// The distinct items of a sequence, in the order in which they first occur.
pub open spec fn distinct<K>(items: Seq<K>) -> Seq<K>
    decreases items.len(),
{
    if items.len() == 0 {
        Seq::empty()
    } else {
        let before = distinct(items.drop_last());
        if before.contains(items.last()) {
            before
        } else {
            before.push(items.last())
        }
    }
}

/// How often an item occurs.
pub open spec fn times<K>(items: Seq<K>, item: K) -> nat
    decreases items.len(),
{
    if items.len() == 0 {
        0
    } else if items.last() == item {
        times(items.drop_last(), item) + 1
    } else {
        times(items.drop_last(), item)
    }
}

/// The items that a table with room for `cap` entries tracks: the first `cap`
/// distinct ones.
pub open spec fn tracked_items<K>(items: Seq<K>, cap: nat) -> Seq<K> {
    if distinct(items).len() <= cap {
        distinct(items)
    } else {
        distinct(items).take(cap as int)
    }
}

/// A table with room for `cap` entries has turned an item away.
pub open spec fn turned_away<K>(items: Seq<K>, cap: nat) -> bool {
    distinct(items).len() > cap
}

/// The distinct items are those that occur, each listed once.
pub proof fn law_distinct<K>(items: Seq<K>)
    ensures
        distinct(items).no_duplicates(),
        forall|x: K| #[trigger] distinct(items).contains(x) <==> items.contains(x),
        distinct(items).len() <= items.len(),
    decreases items.len(),
{
    if items.len() > 0 {
        let head = items.drop_last();
        let before = distinct(head);
        law_distinct(head);
        assert forall|x: K| #[trigger] distinct(items).contains(x) <==> items.contains(x) by {
            if items.contains(x) {
                let k = choose|k: int| 0 <= k < items.len() && items[k] == x;
                if k < head.len() {
                    assert(head[k] == x);
                    assert(before.contains(x));
                    let j = choose|j: int| 0 <= j < before.len() && before[j] == x;
                    assert(distinct(items)[j] == x);
                } else if !before.contains(x) {
                    assert(distinct(items)[before.len() as int] == x);
                }
            }
            if distinct(items).contains(x) {
                let j = choose|j: int| 0 <= j < distinct(items).len() && distinct(items)[j] == x;
                if j < before.len() {
                    assert(before[j] == x);
                    assert(before.contains(x));
                    assert(head.contains(x));
                    let k = choose|k: int| 0 <= k < head.len() && head[k] == x;
                    assert(items[k] == x);
                } else {
                    assert(items[items.len() - 1] == x);
                }
            }
        }
        assert forall|i: int, j: int|
            0 <= i < j < distinct(items).len() implies distinct(items)[i] != distinct(items)[j] by {
            if j == before.len() {
                assert(before[i] == distinct(items)[i]);
                assert(before.contains(before[i]));
            }
        }
    }
}

/// An item occurs at least once if and only if it is there, and no more often
/// than there are items.
pub proof fn law_times<K>(items: Seq<K>, item: K)
    ensures
        times(items, item) > 0 <==> items.contains(item),
        times(items, item) <= items.len(),
    decreases items.len(),
{
    if items.len() > 0 {
        let head = items.drop_last();
        law_times(head, item);
        if items.contains(item) && items.last() != item {
            let k = choose|k: int| 0 <= k < items.len() && items[k] == item;
            assert(head[k] == item);
        }
        if head.contains(item) {
            let k = choose|k: int| 0 <= k < head.len() && head[k] == item;
            assert(items[k] == item);
        }
        if items.last() == item {
            assert(items[items.len() - 1] == item);
        }
    }
}

/// What the next item does to a table.
pub(crate) proof fn lemma_tracked_push<K>(items: Seq<K>, cap: nat, item: K)
    ensures
        ({
            let tracked_before = tracked_items(items, cap);
            let tracked_after = tracked_items(items.push(item), cap);
            &&& tracked_before.contains(item) ==> tracked_after == tracked_before && turned_away(
                items.push(item),
                cap,
            ) == turned_away(items, cap)
            &&& !tracked_before.contains(item) && tracked_before.len() < cap ==> tracked_after
                == tracked_before.push(item) && !turned_away(items.push(item), cap)
                && !turned_away(items, cap) && !items.contains(item)
            &&& !tracked_before.contains(item) && tracked_before.len() >= cap ==> tracked_after
                == tracked_before && turned_away(items.push(item), cap)
        }),
        tracked_items(items, cap).len() <= cap,
{
    let more = items.push(item);
    let d = distinct(items);
    assert(more.drop_last() =~= items);
    law_distinct(items);
    let tracked_before = tracked_items(items, cap);
    if tracked_before.contains(item) {
        let j = choose|j: int| 0 <= j < tracked_before.len() && tracked_before[j] == item;
        assert(d[j] == item);
        assert(d.contains(item));
    } else if tracked_before.len() < cap {
        assert(!d.contains(item));
    } else {
        assert(d.len() >= cap);
        if d.contains(item) {
            let j = choose|j: int| 0 <= j < d.len() && d[j] == item;
            if j < cap {
                assert(tracked_before[j] == item);
            }
        } else {
            assert(d.push(item).take(cap as int) =~= tracked_before);
        }
    }
}

/// The tracked items are distinct items.
pub(crate) proof fn lemma_tracked_items<K>(items: Seq<K>, cap: nat)
    ensures
        tracked_items(items, cap).no_duplicates(),
        forall|x: K| #[trigger] tracked_items(items, cap).contains(x) ==> items.contains(x),
        tracked_items(items, cap).len() <= cap,
{
    law_distinct(items);
    let d = distinct(items);
    assert forall|x: K| #[trigger] tracked_items(items, cap).contains(x) implies items.contains(
        x,
    ) by {
        let j = choose|j: int|
            0 <= j < tracked_items(items, cap).len() && tracked_items(items, cap)[j] == x;
        assert(d[j] == x);
        assert(d.contains(x));
    }
}

/// How often some names occur, added up.
pub open spec fn occurrences<K>(items: Seq<K>, names: Seq<K>) -> nat
    decreases names.len(),
{
    if names.len() == 0 {
        0
    } else {
        occurrences(items, names.drop_last()) + times(items, names.last())
    }
}

proof fn lemma_no_duplicates_but_last<K>(names: Seq<K>)
    requires
        names.no_duplicates(),
        names.len() > 0,
    ensures
        names.drop_last().no_duplicates(),
        !names.drop_last().contains(names.last()),
{
    let head = names.drop_last();
    assert forall|i: int, j: int| 0 <= i < head.len() && 0 <= j < head.len() && i != j implies head[i]
        != head[j] by {
        assert(names[i] != names[j]);
    }
    if head.contains(names.last()) {
        let k = choose|k: int| 0 <= k < head.len() && head[k] == names.last();
        assert(names[k] != names[names.len() - 1]);
    }
}

/// The last item adds to the occurrences of some names if it is one of them.
proof fn lemma_occurrences_push<K>(items: Seq<K>, names: Seq<K>)
    requires
        items.len() > 0,
        names.no_duplicates(),
    ensures
        occurrences(items, names) == occurrences(items.drop_last(), names) + if names.contains(
            items.last(),
        ) {
            1nat
        } else {
            0nat
        },
    decreases names.len(),
{
    if names.len() > 0 {
        let head = names.drop_last();
        lemma_no_duplicates_but_last(names);
        lemma_occurrences_push(items, head);
        let item = items.last();
        if names.contains(item) && names.last() != item {
            let k = choose|k: int| 0 <= k < names.len() && names[k] == item;
            assert(head[k] == item);
        }
        if head.contains(item) {
            let k = choose|k: int| 0 <= k < head.len() && head[k] == item;
            assert(names[k] == item);
        }
        if names.last() == item {
            assert(names[names.len() - 1] == item);
        }
    }
}

proof fn lemma_occurrences_of_nothing<K>(names: Seq<K>)
    ensures
        occurrences(Seq::<K>::empty(), names) == 0,
    decreases names.len(),
{
    if names.len() > 0 {
        lemma_occurrences_of_nothing(names.drop_last());
    }
}

/// The occurrences of different names add up to the number of items if and only
/// if every item is one of the names, and to less if not.
proof fn lemma_occurrences<K>(items: Seq<K>, names: Seq<K>)
    requires
        names.no_duplicates(),
    ensures
        occurrences(items, names) <= items.len(),
        occurrences(items, names) == items.len() <==> forall|x: K| #[trigger]
            items.contains(x) ==> names.contains(x),
    decreases items.len(),
{
    if items.len() == 0 {
        assert(items =~= Seq::empty());
        lemma_occurrences_of_nothing(names);
    } else {
        let head = items.drop_last();
        let last = items.last();
        lemma_occurrences(head, names);
        lemma_occurrences_push(items, names);
        assert(items.contains(last)) by {
            assert(items[items.len() - 1] == last);
        }
        assert forall|x: K| #[trigger] items.contains(x) <==> head.contains(x) || x == last by {
            if items.contains(x) {
                let k = choose|k: int| 0 <= k < items.len() && items[k] == x;
                if k < head.len() {
                    assert(head[k] == x);
                }
            }
            if head.contains(x) {
                let k = choose|k: int| 0 <= k < head.len() && head[k] == x;
                assert(items[k] == x);
            }
        }
        if forall|x: K| #[trigger] items.contains(x) ==> names.contains(x) {
            assert forall|x: K| #[trigger] head.contains(x) implies names.contains(x) by {
                assert(items.contains(x));
            }
        }
    }
}

/// A table has turned an item away if and only if what it tracks occurs less
/// often than there are items.
pub proof fn law_occurrences_of_tracked_items<K>(items: Seq<K>, cap: nat, names: Seq<K>)
    requires
        names.no_duplicates(),
        same_items(names, tracked_items(items, cap)),
    ensures
        occurrences(items, names) <= items.len(),
        turned_away(items, cap) <==> occurrences(items, names) < items.len(),
{
    let d = distinct(items);
    law_distinct(items);
    lemma_occurrences(items, names);
    if turned_away(items, cap) {
        let x = d[cap as int];
        assert(d.contains(x));
        assert(items.contains(x));
        if names.contains(x) {
            assert(tracked_items(items, cap).contains(x));
            let k = choose|k: int| 0 <= k < cap && d.take(cap as int)[k] == x;
            assert(d[k] == x);
        }
    } else {
        assert forall|x: K| #[trigger] items.contains(x) implies names.contains(x) by {
            assert(d.contains(x));
            assert(tracked_items(items, cap).contains(x));
        }
    }
}

/// A table from texts to values, in byte order of the texts.
#[derive(Debug, Clone)]
pub struct Table<V> {
    pub keys: Vec<String>,
    pub values: Vec<V>,
}

/// The texts behind some strings.
pub open spec fn texts(strings: Seq<String>) -> Seq<Seq<char>> {
    strings.map_values(|s: String| s@)
}

/// Each text comes before those that follow it.
pub open spec fn in_text_order(keys: Seq<Seq<char>>) -> bool {
    forall|i: int, j: int|
        0 <= i < j < keys.len() ==> text_before(#[trigger] keys[i], #[trigger] keys[j])
}

/// Two sequences hold the same items.
pub open spec fn same_items<K>(a: Seq<K>, b: Seq<K>) -> bool {
    forall|x: K| #[trigger] a.contains(x) <==> b.contains(x)
}

/// Texts in order are all different.
pub(crate) proof fn lemma_in_text_order(keys: Seq<Seq<char>>)
    requires
        in_text_order(keys),
    ensures
        keys.no_duplicates(),
{
    assert forall|i: int, j: int| 0 <= i < keys.len() && 0 <= j < keys.len() && i != j implies keys[i]
        != keys[j] by {
        law_text_order(keys[i], keys[j], keys[i]);
        if i < j {
            assert(text_before(keys[i], keys[j]));
        } else {
            assert(text_before(keys[j], keys[i]));
        }
    }
}

/// Of the same texts there is one order only.
pub(crate) proof fn lemma_one_text_order(a: Seq<Seq<char>>, b: Seq<Seq<char>>)
    requires
        in_text_order(a),
        in_text_order(b),
        same_items(a, b),
    ensures
        a == b,
{
    lemma_in_text_order(a);
    lemma_in_text_order(b);
    lemma_same_items_len(a, b);
    assert forall|i: int| 0 <= i < a.len() implies a[i] == b[i] by {
        lemma_one_text_order_at(a, b, i);
    }
    assert(a =~= b);
}

proof fn lemma_one_text_order_at(a: Seq<Seq<char>>, b: Seq<Seq<char>>, i: int)
    requires
        in_text_order(a),
        in_text_order(b),
        same_items(a, b),
        a.len() == b.len(),
        0 <= i < a.len(),
    ensures
        a[i] == b[i],
    decreases i,
{
    assert forall|k: int| 0 <= k < i implies #[trigger] a[k] == b[k] by {
        lemma_one_text_order_at(a, b, k);
    }
    assert(a.contains(a[i]));
    assert(b.contains(b[i]));
    assert(b.contains(a[i]));
    assert(a.contains(b[i]));
    let j = choose|j: int| 0 <= j < b.len() && b[j] == a[i];
    let k = choose|k: int| 0 <= k < a.len() && a[k] == b[i];
    law_text_order(a[i], b[i], a[i]);
    law_text_order(b[i], b[i], b[i]);
    if j < i {
        assert(a[j] == b[j]);
        assert(text_before(a[j], a[i]));
    }
    if k < i {
        assert(a[k] == b[k]);
        assert(text_before(b[k], b[i]));
    }
    if j > i && k > i {
        assert(text_before(b[i], b[j]));
        assert(text_before(a[i], a[k]));
    }
}

/// Sequences without repetitions and of one length hold the same items if one
/// holds what the other does.
pub(crate) proof fn lemma_same_len_items<K>(a: Seq<K>, b: Seq<K>)
    requires
        a.no_duplicates(),
        b.no_duplicates(),
        a.len() == b.len(),
        forall|i: int| 0 <= i < a.len() ==> b.contains(#[trigger] a[i]),
    ensures
        same_items(a, b),
{
    a.unique_seq_to_set();
    b.unique_seq_to_set();
    vstd::seq_lib::seq_to_set_is_finite(a);
    vstd::seq_lib::seq_to_set_is_finite(b);
    assert forall|x: K| #[trigger] a.to_set().contains(x) implies b.to_set().contains(x) by {
        let i = choose|i: int| 0 <= i < a.len() && a[i] == x;
        assert(b.contains(a[i]));
    }
    vstd::set_lib::lemma_subset_equality(a.to_set(), b.to_set());
    assert forall|x: K| #[trigger] a.contains(x) <==> b.contains(x) by {
        assert(a.to_set().contains(x) <==> b.to_set().contains(x));
    }
}

/// Sequences without repetitions that hold the same items are of one length.
pub(crate) proof fn lemma_same_items_len<K>(a: Seq<K>, b: Seq<K>)
    requires
        a.no_duplicates(),
        b.no_duplicates(),
        same_items(a, b),
    ensures
        a.len() == b.len(),
{
    a.unique_seq_to_set();
    b.unique_seq_to_set();
    assert(a.to_set() =~= b.to_set()) by {
        assert forall|x: K| a.to_set().contains(x) == b.to_set().contains(x) by {
            assert(a.contains(x) <==> b.contains(x));
        }
    }
}

impl<V> Table<V> {
    /// The texts of the table, in order.
    pub open spec fn names(&self) -> Seq<Seq<char>> {
        texts(self.keys@)
    }

    /// Every text has a value, and the texts are in order.
    pub open spec fn wf(&self) -> bool {
        &&& self.keys@.len() == self.values@.len()
        &&& in_text_order(self.names())
    }

    pub(crate) fn new() -> (table: Self)
        ensures
            table.wf(),
            table.names() == Seq::<Seq<char>>::empty(),
    {
        let table: Table<V> = Table { keys: Vec::new(), values: Vec::new() };
        assert(table.names() =~= Seq::empty());
        table
    }

    pub(crate) fn len(&self) -> (n: usize)
        requires
            self.wf(),
        ensures
            n == self.names().len(),
            n == self.values@.len(),
    {
        self.keys.len()
    }

    /// The place of a text: where it is, or where it would go.
    pub(crate) fn find(&self, key: &str) -> (place: Result<usize, usize>)
        requires
            self.wf(),
        ensures
            match place {
                Ok(i) => i < self.names().len() && self.names()[i as int] == key@,
                Err(i) => {
                    &&& i <= self.names().len()
                    &&& !self.names().contains(key@)
                    &&& forall|k: int| 0 <= k < i ==> text_before(#[trigger] self.names()[k], key@)
                    &&& forall|k: int|
                        i <= k < self.names().len() ==> text_before(
                            key@,
                            #[trigger] self.names()[k],
                        )
                },
            },
    {
        let ghost names = self.names();
        let mut low: usize = 0;
        let mut high: usize = self.keys.len();
        while low < high
            invariant
                self.wf(),
                names == self.names(),
                low <= high <= names.len(),
                names.len() == self.keys@.len(),
                forall|k: int| 0 <= k < low ==> text_before(#[trigger] names[k], key@),
                forall|k: int| high <= k < names.len() ==> text_before(key@, #[trigger] names[k]),
            decreases high - low,
        {
            let mid: usize = low + (high - low) / 2;
            assert(names[mid as int] == self.keys@[mid as int]@);
            match text::place(self.keys[mid].as_str(), key) {
                Place::Before => {
                    assert forall|k: int| 0 <= k < mid + 1 implies text_before(
                        #[trigger] names[k],
                        key@,
                    ) by {
                        if k < mid {
                            law_text_order(names[k], names[mid as int], key@);
                        }
                    }
                    low = mid + 1;
                },
                Place::Same => {
                    return Ok(mid);
                },
                Place::After => {
                    assert forall|k: int| mid <= k < names.len() implies text_before(
                        key@,
                        #[trigger] names[k],
                    ) by {
                        if mid < k {
                            law_text_order(key@, names[mid as int], names[k]);
                        }
                    }
                    high = mid;
                },
            }
        }
        proof {
            if names.contains(key@) {
                let k = choose|k: int| 0 <= k < names.len() && names[k] == key@;
                law_text_order(key@, key@, key@);
                assert(names[k] == key@);
            }
        }
        Err(low)
    }

    /// Puts a text and its value where [`Table::find`] says it would go.
    pub(crate) fn insert(&mut self, at: usize, key: String, value: V)
        requires
            old(self).wf(),
            at <= old(self).names().len(),
            forall|k: int| 0 <= k < at ==> text_before(#[trigger] old(self).names()[k], key@),
            forall|k: int|
                at <= k < old(self).names().len() ==> text_before(
                    key@,
                    #[trigger] old(self).names()[k],
                ),
        ensures
            final(self).wf(),
            final(self).names() == old(self).names().insert(at as int, key@),
            final(self).values@ == old(self).values@.insert(at as int, value),
    {
        let ghost before = self.names();
        self.keys.insert(at, key);
        self.values.insert(at, value);
        proof {
            let after = self.names();
            assert(after =~= before.insert(at as int, key@));
            assert forall|i: int, j: int| 0 <= i < j < after.len() implies text_before(
                #[trigger] after[i],
                #[trigger] after[j],
            ) by {
                let i0 = if i < at {
                    i
                } else {
                    i - 1
                };
                let j0 = if j < at {
                    j
                } else {
                    j - 1
                };
                if i != at {
                    assert(after[i] == before[i0]);
                }
                if j != at {
                    assert(after[j] == before[j0]);
                }
            }
        }
    }
}

/// A later insertion keeps the items and adds one.
pub(crate) proof fn lemma_insert_items<K>(names: Seq<K>, at: int, name: K, listed: Seq<K>)
    requires
        0 <= at <= names.len(),
        same_items(names, listed),
    ensures
        same_items(names.insert(at, name), listed.push(name)),
{
    let more = names.insert(at, name);
    assert forall|x: K| #[trigger] more.contains(x) <==> listed.push(name).contains(x) by {
        assert(names.contains(x) <==> listed.contains(x));
        if more.contains(x) {
            let k = choose|k: int| 0 <= k < more.len() && more[k] == x;
            if k == at {
                assert(listed.push(name)[listed.len() as int] == x);
            } else {
                let k0 = if k < at {
                    k
                } else {
                    k - 1
                };
                assert(names[k0] == x);
                assert(listed.contains(x));
                let j = choose|j: int| 0 <= j < listed.len() && listed[j] == x;
                assert(listed.push(name)[j] == x);
            }
        }
        if listed.push(name).contains(x) {
            let j = choose|j: int|
                0 <= j < listed.push(name).len() && listed.push(name)[j] == x;
            if j < listed.len() {
                assert(listed[j] == x);
                assert(names.contains(x));
                let k = choose|k: int| 0 <= k < names.len() && names[k] == x;
                let k1 = if k < at {
                    k
                } else {
                    k + 1
                };
                assert(more[k1] == x);
            } else {
                assert(more[at] == x);
            }
        }
    }
}

/// In a ranking, the larger count comes first; of equal counts, the lower
/// place.
pub open spec fn ranks_before(counts: Seq<u64>, a: int, b: int) -> bool {
    counts[a] > counts[b] || (counts[a] == counts[b] && a < b)
}

/// The places of some counts, ranked.
pub(crate) fn ranking(counts: &Vec<u64>) -> (order: Vec<usize>)
    ensures
        order@.len() == counts@.len(),
        forall|i: int| 0 <= i < order@.len() ==> #[trigger] order@[i] < counts@.len(),
        forall|k: usize| k < counts@.len() ==> #[trigger] order@.contains(k),
        forall|i: int, j: int|
            0 <= i < j < order@.len() ==> ranks_before(
                counts@,
                #[trigger] order@[i] as int,
                #[trigger] order@[j] as int,
            ),
{
    let mut order: Vec<usize> = Vec::new();
    let mut n: usize = 0;
    while n < counts.len()
        invariant
            n <= counts@.len(),
            order@.len() == n,
            forall|i: int| 0 <= i < order@.len() ==> #[trigger] order@[i] < n,
            forall|k: usize| k < n ==> #[trigger] order@.contains(k),
            forall|i: int, j: int|
                0 <= i < j < order@.len() ==> ranks_before(
                    counts@,
                    #[trigger] order@[i] as int,
                    #[trigger] order@[j] as int,
                ),
        decreases counts@.len() - n,
    {
        let mut low: usize = 0;
        let mut high: usize = order.len();
        while low < high
            invariant
                n < counts@.len(),
                order@.len() == n,
                low <= high <= n,
                forall|i: int| 0 <= i < order@.len() ==> #[trigger] order@[i] < n,
                forall|i: int, j: int|
                    0 <= i < j < order@.len() ==> ranks_before(
                        counts@,
                        #[trigger] order@[i] as int,
                        #[trigger] order@[j] as int,
                    ),
                forall|i: int|
                    0 <= i < low ==> ranks_before(counts@, #[trigger] order@[i] as int, n as int),
                forall|i: int|
                    high <= i < order@.len() ==> ranks_before(
                        counts@,
                        n as int,
                        #[trigger] order@[i] as int,
                    ),
            decreases high - low,
        {
            let mid: usize = low + (high - low) / 2;
            if counts[order[mid]] >= counts[n] {
                low = mid + 1;
            } else {
                high = mid;
            }
        }
        let ghost before = order@;
        order.insert(low, n);
        proof {
            assert(order@ == before.insert(low as int, n));
            assert forall|i: int, j: int| 0 <= i < j < order@.len() implies ranks_before(
                counts@,
                #[trigger] order@[i] as int,
                #[trigger] order@[j] as int,
            ) by {
                let i0 = if i < low {
                    i
                } else {
                    i - 1
                };
                let j0 = if j < low {
                    j
                } else {
                    j - 1
                };
                if i != low {
                    assert(order@[i] == before[i0]);
                }
                if j != low {
                    assert(order@[j] == before[j0]);
                }
            }
            assert forall|k: usize| k < n + 1 implies #[trigger] order@.contains(k) by {
                if k == n {
                    assert(order@[low as int] == k);
                } else {
                    assert(before.contains(k));
                    let i0 = choose|i: int| 0 <= i < before.len() && before[i] == k;
                    let i1 = if i0 < low {
                        i0
                    } else {
                        i0 + 1
                    };
                    assert(order@[i1] == k);
                }
            }
            assert forall|i: int| 0 <= i < order@.len() implies #[trigger] order@[i] < n + 1 by {
                if i < low {
                    assert(order@[i] == before[i]);
                } else if i > low {
                    assert(order@[i] == before[i - 1]);
                }
            }
        }
        n = n + 1;
    }
    order
}

/// An item occurs as often as there are items equal to it.
pub proof fn law_times_counts_equal_items<K>(items: Seq<K>, item: K)
    ensures
        times(items, item) == items.filter(|other: K| other == item).len(),
    decreases items.len(),
{
    reveal(Seq::filter);
    if items.len() > 0 {
        law_times_counts_equal_items(items.drop_last(), item);
    }
}

/// An item stands somewhere before the first place of another.
pub open spec fn first_met_before<K>(items: Seq<K>, item: K, other: K) -> bool {
    exists|p: int|
        0 <= p < items.len() && #[trigger] items[p] == item && forall|q: int|
            0 <= q <= p ==> #[trigger] items[q] != other
}

/// Distinct items are listed in the order in which they are first met.
pub proof fn law_distinct_items_are_in_the_order_met<K>(items: Seq<K>)
    ensures
        forall|i: int, j: int|
            0 <= i < j < distinct(items).len() ==> first_met_before(
                items,
                #[trigger] distinct(items)[i],
                #[trigger] distinct(items)[j],
            ),
    decreases items.len(),
{
    if items.len() > 0 {
        let head = items.drop_last();
        let before = distinct(head);
        let now = distinct(items);
        law_distinct_items_are_in_the_order_met(head);
        law_distinct(head);
        assert forall|i: int, j: int| 0 <= i < j < now.len() implies first_met_before(
            items,
            #[trigger] now[i],
            #[trigger] now[j],
        ) by {
            assert(now[i] == before[i]);
            assert(before.contains(before[i]));
            if j < before.len() {
                assert(now[j] == before[j]);
                assert(first_met_before(head, before[i], before[j]));
                let p = choose|p: int|
                    0 <= p < head.len() && #[trigger] head[p] == before[i] && forall|q: int|
                        0 <= q <= p ==> #[trigger] head[q] != before[j];
                assert(items[p] == now[i]);
                assert forall|q: int| 0 <= q <= p implies #[trigger] items[q] != now[j] by {
                    assert(head[q] != before[j]);
                }
            } else {
                assert(head.contains(before[i]));
                let p = choose|p: int| 0 <= p < head.len() && head[p] == before[i];
                assert(items[p] == now[i]);
                assert(!before.contains(now[j]));
                assert forall|q: int| 0 <= q <= p implies #[trigger] items[q] != now[j] by {
                    assert(head[q] == items[q]);
                    if items[q] == now[j] {
                        assert(head.contains(now[j]));
                    }
                }
            }
        }
    }
}

/// A table tracks an item exactly if there was room for it when it was first met:
/// if fewer distinct items than the table holds came before it.
pub proof fn law_items_are_tracked_while_there_is_room<K>(items: Seq<K>, cap: nat, p: int)
    requires
        0 <= p < items.len(),
        forall|q: int| 0 <= q < p ==> items[q] != items[p],
    ensures
        tracked_items(items, cap).contains(items[p]) <==> items.take(p).to_set().len() < cap,
        tracked_items(items, cap).len() <= cap,
        tracked_items(items, cap).no_duplicates(),
{
    let before = items.take(p);
    let upto = items.take(p + 1);
    let seen = distinct(before);
    let all = distinct(items);
    law_distinct(before);
    law_distinct(items);
    assert(upto.drop_last() =~= before);
    assert(!before.contains(items[p]));
    assert(distinct(upto) == seen.push(items[p]));
    lemma_distinct_starts_alike(items, p + 1);
    assert(all[seen.len() as int] == distinct(upto)[seen.len() as int]);
    seen.unique_seq_to_set();
    assert(seen.to_set() =~= before.to_set());
    let held = tracked_items(items, cap);
    if held.contains(items[p]) {
        let i = choose|i: int| 0 <= i < held.len() && held[i] == items[p];
        assert(all[i] == items[p]);
        assert(i == seen.len());
    }
    if seen.len() < cap {
        assert(held[seen.len() as int] == items[p]);
    }
}

/// What is met later changes nothing of what came before.
proof fn lemma_distinct_starts_alike<K>(items: Seq<K>, n: int)
    requires
        0 <= n <= items.len(),
    ensures
        distinct(items.take(n)).len() <= distinct(items).len(),
        forall|i: int|
            0 <= i < distinct(items.take(n)).len() ==> #[trigger] distinct(items)[i] == distinct(
                items.take(n),
            )[i],
    decreases items.len() - n,
{
    if n < items.len() {
        lemma_distinct_starts_alike(items, n + 1);
        assert(items.take(n + 1).drop_last() =~= items.take(n));
        assert forall|i: int| 0 <= i < distinct(items.take(n)).len() implies #[trigger] distinct(
            items,
        )[i] == distinct(items.take(n))[i] by {
            assert(distinct(items)[i] == distinct(items.take(n + 1))[i]);
        }
    } else {
        assert(items.take(n) =~= items);
    }
}

} // verus!
