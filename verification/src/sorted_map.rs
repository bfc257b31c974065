//! A map kept in ascending order of its keys.

use vstd::prelude::*;
use crate::order::Standing;

verus! {

/// A key whose place in the order is a number.
pub trait Ranked: Copy {
    /// The number this key sorts by.
    spec fn rank(self) -> int;

    /// No two keys share one.
    proof fn rank_tells_apart(a: Self, b: Self)
        requires
            a.rank() == b.rank(),
        ensures
            a == b,
    ;

    /// Compares two keys.
    fn compare_rank(&self, other: &Self) -> (standing: Standing)
        ensures
            standing == Standing::Before <==> self.rank() < other.rank(),
            standing == Standing::Same <==> *self == *other,
            standing == Standing::After <==> other.rank() < self.rank(),
    ;
}

/// Whether a listing runs strictly upwards.
pub open spec fn sorted<K: Ranked, V>(entries: Seq<(K, V)>) -> bool {
    forall|i: int, j: int|
        0 <= i < j < entries.len() ==> (#[trigger] entries[i]).0.rank() < (
        #[trigger] entries[j]).0.rank()
}

/// Whether a listing has an entry for `key` at `at`.
pub open spec fn lists_at<K: Ranked, V>(entries: Seq<(K, V)>, key: K, at: int) -> bool {
    0 <= at < entries.len() && entries[at].0 == key
}

/// The map a listing stands for.
pub open spec fn map_of<K: Ranked, V>(entries: Seq<(K, V)>) -> Map<K, V> {
    Map::new(
        |key: K| exists|at: int| lists_at(entries, key, at),
        |key: K| entries[choose|at: int| lists_at(entries, key, at)].1,
    )
}

/// The listing of a map in ascending order of its keys.
pub open spec fn ascending<K: Ranked, V>(map: Map<K, V>) -> Seq<(K, V)> {
    choose|entries: Seq<(K, V)>| sorted(entries) && map_of(entries) == map
}

/// Whether a map's entries can be listed in order.
pub open spec fn is_listed<K: Ranked, V>(map: Map<K, V>) -> bool {
    sorted(ascending(map)) && map_of(ascending(map)) == map
}

/// What a sorted listing says at one place is what its map says of that key.
pub proof fn lemma_entry_is_mapped<K: Ranked, V>(entries: Seq<(K, V)>, at: int)
    requires
        sorted(entries),
        0 <= at < entries.len(),
    ensures
        map_of(entries).contains_key(entries[at].0),
        map_of(entries)[entries[at].0] == entries[at].1,
{
    let key = entries[at].0;
    assert(lists_at(entries, key, at));
    let found = choose|i: int| lists_at(entries, key, i);
    assert(lists_at(entries, key, found));
    if found < at {
        assert(entries[found].0.rank() < entries[at].0.rank());
    } else if at < found {
        assert(entries[at].0.rank() < entries[found].0.rank());
    }
}

/// Every mapped key has a place in the listing.
pub proof fn lemma_mapped_key_is_listed<K: Ranked, V>(entries: Seq<(K, V)>, key: K) -> (at: int)
    requires
        sorted(entries),
        map_of(entries).contains_key(key),
    ensures
        lists_at(entries, key, at),
        map_of(entries)[key] == entries[at].1,
{
    let at = choose|i: int| lists_at(entries, key, i);
    lemma_entry_is_mapped(entries, at);
    at
}

/// A map has one listing in order.
pub proof fn lemma_listing_is_unique<K: Ranked, V>(a: Seq<(K, V)>, b: Seq<(K, V)>)
    requires
        sorted(a),
        sorted(b),
        map_of(a) == map_of(b),
    ensures
        a == b,
    decreases a.len(),
{
    if a.len() == 0 {
        if b.len() > 0 {
            lemma_entry_is_mapped(b, 0);
            let at = lemma_mapped_key_is_listed(a, b[0].0);
        }
        assert(a =~= b);
    } else {
        lemma_entry_is_mapped(a, a.len() - 1);
        let in_b = lemma_mapped_key_is_listed(b, a.last().0);
        lemma_entry_is_mapped(b, b.len() - 1);
        let in_a = lemma_mapped_key_is_listed(a, b.last().0);
        assert(in_b == b.len() - 1 || b[in_b].0.rank() < b.last().0.rank());
        assert(in_a == a.len() - 1 || a[in_a].0.rank() < a.last().0.rank());
        assert(a.last() == b.last());
        lemma_drop_last(a);
        lemma_drop_last(b);
        lemma_listing_is_unique(a.drop_last(), b.drop_last());
        assert(a =~= a.drop_last().push(a.last()));
        assert(b =~= b.drop_last().push(b.last()));
    }
}

proof fn lemma_drop_last<K: Ranked, V>(entries: Seq<(K, V)>)
    requires
        sorted(entries),
        entries.len() > 0,
    ensures
        sorted(entries.drop_last()),
        map_of(entries.drop_last()) == map_of(entries).remove(entries.last().0),
{
    let shorter = entries.drop_last();
    lemma_sorted_part(entries, 0, entries.len() - 1);
    assert(shorter =~= entries.subrange(0, entries.len() - 1));
    lemma_remove(entries, entries.len() - 1);
    assert(entries.remove(entries.len() - 1) =~= shorter);
}

/// A stretch of a sorted listing is sorted.
pub proof fn lemma_sorted_part<K: Ranked, V>(entries: Seq<(K, V)>, from: int, to: int)
    requires
        sorted(entries),
        0 <= from <= to <= entries.len(),
    ensures
        sorted(entries.subrange(from, to)),
{
    let part = entries.subrange(from, to);
    assert forall|i: int, j: int| 0 <= i < j < part.len() implies (#[trigger] part[i]).0.rank() < (
    #[trigger] part[j]).0.rank() by {
        assert(entries[from + i].0.rank() < entries[from + j].0.rank());
    }
}

/// Striking out one entry takes its key out of the map.
pub proof fn lemma_remove<K: Ranked, V>(entries: Seq<(K, V)>, at: int)
    requires
        sorted(entries),
        0 <= at < entries.len(),
    ensures
        sorted(entries.remove(at)),
        map_of(entries.remove(at)) == map_of(entries).remove(entries[at].0),
{
    let key = entries[at].0;
    let rest = entries.remove(at);
    assert forall|i: int, j: int| 0 <= i < j < rest.len() implies (#[trigger] rest[i]).0.rank() < (
    #[trigger] rest[j]).0.rank() by {
        let from = if i < at { i } else { i + 1 };
        let to = if j < at { j } else { j + 1 };
        assert(entries[from].0.rank() < entries[to].0.rank());
    }
    assert forall|k: K| map_of(rest).contains_key(k) <==> map_of(entries).remove(key).contains_key(
        k,
    ) by {
        if map_of(rest).contains_key(k) {
            let i = lemma_mapped_key_is_listed(rest, k);
            let from = if i < at { i } else { i + 1 };
            lemma_entry_is_mapped(entries, from);
            if from < at {
                assert(entries[from].0.rank() < entries[at].0.rank());
            } else {
                assert(entries[at].0.rank() < entries[from].0.rank());
            }
        }
        if map_of(entries).remove(key).contains_key(k) {
            let i = lemma_mapped_key_is_listed(entries, k);
            let to = if i < at { i } else { i - 1 };
            assert(rest[to] == entries[i]);
            lemma_entry_is_mapped(rest, to);
        }
    }
    assert forall|k: K| map_of(rest).contains_key(k) implies map_of(rest)[k] == map_of(
        entries,
    )[k] by {
        let i = lemma_mapped_key_is_listed(rest, k);
        let from = if i < at { i } else { i + 1 };
        lemma_entry_is_mapped(entries, from);
    }
    assert(map_of(rest) =~= map_of(entries).remove(key));
}

/// Writing over one entry writes over its key in the map.
pub proof fn lemma_update<K: Ranked, V>(entries: Seq<(K, V)>, at: int, value: V)
    requires
        sorted(entries),
        0 <= at < entries.len(),
    ensures
        sorted(entries.update(at, (entries[at].0, value))),
        map_of(entries.update(at, (entries[at].0, value))) == map_of(entries).insert(
            entries[at].0,
            value,
        ),
{
    let key = entries[at].0;
    let after = entries.update(at, (key, value));
    assert forall|i: int, j: int| 0 <= i < j < after.len() implies (#[trigger] after[i]).0.rank()
        < (#[trigger] after[j]).0.rank() by {
        assert(entries[i].0.rank() < entries[j].0.rank());
    }
    assert forall|k: K| map_of(after).contains_key(k) <==> map_of(entries).insert(
        key,
        value,
    ).contains_key(k) by {
        if map_of(after).contains_key(k) {
            let i = lemma_mapped_key_is_listed(after, k);
            lemma_entry_is_mapped(entries, i);
        }
        if map_of(entries).insert(key, value).contains_key(k) {
            if k == key {
                lemma_entry_is_mapped(after, at);
            } else {
                let i = lemma_mapped_key_is_listed(entries, k);
                assert(after[i] == entries[i]);
                lemma_entry_is_mapped(after, i);
            }
        }
    }
    assert forall|k: K| map_of(after).contains_key(k) implies map_of(after)[k] == map_of(
        entries,
    ).insert(key, value)[k] by {
        let i = lemma_mapped_key_is_listed(after, k);
        lemma_entry_is_mapped(entries, i);
        if i != at {
            if i < at {
                assert(entries[i].0.rank() < entries[at].0.rank());
            } else {
                assert(entries[at].0.rank() < entries[i].0.rank());
            }
        }
    }
    assert(map_of(after) =~= map_of(entries).insert(key, value));
}

/// Slipping an entry in where its key belongs adds it to the map.
pub proof fn lemma_insert<K: Ranked, V>(entries: Seq<(K, V)>, at: int, key: K, value: V)
    requires
        sorted(entries),
        0 <= at <= entries.len(),
        forall|i: int| 0 <= i < at ==> (#[trigger] entries[i]).0.rank() < key.rank(),
        forall|i: int| at <= i < entries.len() ==> key.rank() < (#[trigger] entries[i]).0.rank(),
    ensures
        sorted(entries.insert(at, (key, value))),
        map_of(entries.insert(at, (key, value))) == map_of(entries).insert(key, value),
        !map_of(entries).contains_key(key),
{
    let after = entries.insert(at, (key, value));
    assert forall|i: int, j: int| 0 <= i < j < after.len() implies (#[trigger] after[i]).0.rank()
        < (#[trigger] after[j]).0.rank() by {
        let from = if i < at { i } else { i - 1 };
        let to = if j < at { j } else { j - 1 };
        if i != at && j != at {
            assert(after[i] == entries[from]);
            assert(after[j] == entries[to]);
        } else if i == at {
            assert(after[j] == entries[to]);
        } else {
            assert(after[i] == entries[from]);
        }
    }
    if map_of(entries).contains_key(key) {
        let i = lemma_mapped_key_is_listed(entries, key);
    }
    assert forall|k: K| map_of(after).contains_key(k) <==> map_of(entries).insert(
        key,
        value,
    ).contains_key(k) by {
        if map_of(after).contains_key(k) {
            let i = lemma_mapped_key_is_listed(after, k);
            if i != at {
                let from = if i < at { i } else { i - 1 };
                assert(after[i] == entries[from]);
                lemma_entry_is_mapped(entries, from);
            }
        }
        if map_of(entries).insert(key, value).contains_key(k) {
            if k == key {
                lemma_entry_is_mapped(after, at);
            } else {
                let i = lemma_mapped_key_is_listed(entries, k);
                let to = if i < at { i } else { i + 1 };
                assert(after[to] == entries[i]);
                lemma_entry_is_mapped(after, to);
            }
        }
    }
    assert forall|k: K| map_of(after).contains_key(k) implies map_of(after)[k] == map_of(
        entries,
    ).insert(key, value)[k] by {
        let i = lemma_mapped_key_is_listed(after, k);
        if i != at {
            let from = if i < at { i } else { i - 1 };
            assert(after[i] == entries[from]);
            lemma_entry_is_mapped(entries, from);
        }
    }
    assert(map_of(after) =~= map_of(entries).insert(key, value));
}

/// A sorted listing is the listing of its map.
pub proof fn lemma_ascending_is_the_listing<K: Ranked, V>(entries: Seq<(K, V)>)
    requires
        sorted(entries),
    ensures
        ascending(map_of(entries)) == entries,
{
    let listed = ascending(map_of(entries));
    assert(sorted(listed) && map_of(listed) == map_of(entries));
    lemma_listing_is_unique(listed, entries);
}

/// Taking a key out of a map that can be listed leaves one that can be.
pub proof fn lemma_remove_is_listed<K: Ranked, V>(map: Map<K, V>, key: K)
    requires
        is_listed(map),
    ensures
        is_listed(map.remove(key)),
{
    let listed = ascending(map);
    if map.contains_key(key) {
        let at = lemma_mapped_key_is_listed(listed, key);
        lemma_remove(listed, at);
        lemma_ascending_is_the_listing(listed.remove(at));
    } else {
        assert(map.remove(key) =~= map);
    }
}

/// Where a key that is not in a listing belongs.
proof fn lemma_place<K: Ranked, V>(entries: Seq<(K, V)>, key: K, from: int) -> (at: int)
    requires
        sorted(entries),
        !map_of(entries).contains_key(key),
        0 <= from <= entries.len(),
        forall|i: int| 0 <= i < from ==> (#[trigger] entries[i]).0.rank() < key.rank(),
    ensures
        from <= at <= entries.len(),
        forall|i: int| 0 <= i < at ==> (#[trigger] entries[i]).0.rank() < key.rank(),
        forall|i: int| at <= i < entries.len() ==> key.rank() < (#[trigger] entries[i]).0.rank(),
    decreases entries.len() - from,
{
    if from == entries.len() {
        from
    } else if entries[from].0.rank() < key.rank() {
        lemma_place(entries, key, from + 1)
    } else {
        if entries[from].0.rank() == key.rank() {
            K::rank_tells_apart(entries[from].0, key);
            lemma_entry_is_mapped(entries, from);
        }
        from
    }
}

/// Putting a key into a map that can be listed leaves one that can be.
pub proof fn lemma_insert_is_listed<K: Ranked, V>(map: Map<K, V>, key: K, value: V)
    requires
        is_listed(map),
    ensures
        is_listed(map.insert(key, value)),
{
    let listed = ascending(map);
    if map.contains_key(key) {
        let at = lemma_mapped_key_is_listed(listed, key);
        lemma_update(listed, at, value);
        lemma_ascending_is_the_listing(listed.update(at, (key, value)));
    } else {
        let at = lemma_place(listed, key, 0);
        lemma_insert(listed, at, key, value);
        lemma_ascending_is_the_listing(listed.insert(at, (key, value)));
    }
}

/// A map that can be listed, without those of its first `upto` keys that `part`
/// lacks.
proof fn lemma_trimmed<K: Ranked, V>(map: Map<K, V>, part: Map<K, V>, upto: int) -> (trimmed: Map<
    K,
    V,
>)
    requires
        is_listed(map),
        0 <= upto <= ascending(map).len(),
    ensures
        is_listed(trimmed),
        forall|key: K| #[trigger]
            trimmed.contains_key(key) <==> map.contains_key(key) && (part.contains_key(key)
                || !(exists|at: int| lists_at(ascending(map), key, at) && at < upto)),
        forall|key: K| #[trigger] trimmed.contains_key(key) ==> trimmed[key] == map[key],
    decreases upto,
{
    if upto == 0 {
        map
    } else {
        let listed = ascending(map);
        let before = lemma_trimmed(map, part, upto - 1);
        let last = listed[upto - 1].0;
        let trimmed = if part.contains_key(last) {
            before
        } else {
            lemma_remove_is_listed(before, last);
            before.remove(last)
        };
        assert(lists_at(listed, last, upto - 1));
        assert forall|key: K| #[trigger]
            trimmed.contains_key(key) <==> map.contains_key(key) && (part.contains_key(key) || !(
        exists|at: int| lists_at(listed, key, at) && at < upto)) by {
            assert(trimmed.contains_key(key) ==> before.contains_key(key));
            if exists|at: int| lists_at(listed, key, at) && at < upto {
                let at = choose|at: int| lists_at(listed, key, at) && at < upto;
                if at == upto - 1 {
                    assert(key == last);
                } else {
                    assert(lists_at(listed, key, at) && at < upto - 1);
                }
            }
            if exists|at: int| lists_at(listed, key, at) && at < upto - 1 {
                let at = choose|at: int| lists_at(listed, key, at) && at < upto - 1;
                assert(lists_at(listed, key, at) && at < upto);
            }
        }
        trimmed
    }
}

/// Any part of a map that can be listed can be listed.
pub proof fn lemma_part_is_listed<K: Ranked, V>(map: Map<K, V>, part: Map<K, V>)
    requires
        is_listed(map),
        forall|key: K| #[trigger]
            part.contains_key(key) ==> map.contains_key(key) && part[key] == map[key],
    ensures
        is_listed(part),
{
    let listed = ascending(map);
    let trimmed = lemma_trimmed(map, part, listed.len() as int);
    assert forall|key: K| #[trigger] trimmed.contains_key(key) <==> part.contains_key(key) by {
        if map.contains_key(key) {
            let at = lemma_mapped_key_is_listed(listed, key);
            assert(lists_at(listed, key, at) && at < listed.len());
        }
    }
    assert(trimmed =~= part);
}

/// Working over the values of a listing, each in its place, works over the
/// values of the map.
pub proof fn lemma_values_in_place<K: Ranked, V, W>(
    before: Seq<(K, V)>,
    after: Seq<(K, W)>,
    f: spec_fn(K, V) -> W,
)
    requires
        sorted(before),
        before.len() == after.len(),
        forall|i: int|
            0 <= i < before.len() ==> #[trigger] after[i] == (
                before[i].0,
                f(before[i].0, before[i].1),
            ),
    ensures
        sorted(after),
        map_of(after) == Map::new(
            |key: K| map_of(before).contains_key(key),
            |key: K| f(key, map_of(before)[key]),
        ),
{
    assert forall|i: int, j: int| 0 <= i < j < after.len() implies (#[trigger] after[i]).0.rank()
        < (#[trigger] after[j]).0.rank() by {
        assert(before[i].0.rank() < before[j].0.rank());
    }
    let expected = Map::new(
        |key: K| map_of(before).contains_key(key),
        |key: K| f(key, map_of(before)[key]),
    );
    assert forall|key: K| map_of(after).contains_key(key) <==> #[trigger] expected.contains_key(
        key,
    ) by {
        if map_of(after).contains_key(key) {
            let i = lemma_mapped_key_is_listed(after, key);
            lemma_entry_is_mapped(before, i);
        }
        if map_of(before).contains_key(key) {
            let i = lemma_mapped_key_is_listed(before, key);
            lemma_entry_is_mapped(after, i);
        }
    }
    assert forall|key: K| map_of(after).contains_key(key) implies #[trigger] map_of(after)[key]
        == expected[key] by {
        let i = lemma_mapped_key_is_listed(after, key);
        lemma_entry_is_mapped(before, i);
    }
    assert(map_of(after) =~= expected);
}

/// Picking from one entry more picks what was picked already, and that entry
/// if it qualifies.
pub proof fn lemma_pick_one_more<T>(entries: Seq<T>, at: int, keep: spec_fn(T) -> bool)
    requires
        0 <= at < entries.len(),
    ensures
        entries.take(at + 1).filter(keep) == (if keep(entries[at]) {
            entries.take(at).filter(keep).push(entries[at])
        } else {
            entries.take(at).filter(keep)
        }),
{
    reveal(Seq::filter);
    assert(entries.take(at + 1).drop_last() =~= entries.take(at));
    assert(entries.take(at + 1).last() == entries[at]);
}

/// A map from keys to values, each entry in its place by the key's rank.
///
/// Everything that walks it meets the keys in ascending order.
#[derive(Clone, Debug)]
pub struct SortedMap<K, V> {
    entries: Vec<(K, V)>,
}

impl<K: Ranked, V: View> View for SortedMap<K, V> {
    type V = Map<K, V::V>;

    closed spec fn view(&self) -> Map<K, V::V> {
        map_of(self.listing())
    }
}

impl<K: Ranked, V: View> SortedMap<K, V> {
    /// The entries as they are held.
    closed spec fn listing(&self) -> Seq<(K, V::V)> {
        self.entries@.map_values(|entry: (K, V)| (entry.0, entry.1@))
    }

    /// Whether the entries are in order.
    pub closed spec fn wf(&self) -> bool {
        sorted(self.listing())
    }

    /// The map with nothing in it.
    pub fn new() -> (map: Self)
        ensures
            map.wf(),
            map@ == Map::<K, V::V>::empty(),
    {
        let map = SortedMap { entries: Vec::new() };
        assert(map.listing() =~= Seq::empty());
        assert(map@ =~= Map::empty());
        map
    }

    /// How many entries there are.
    pub fn len(&self) -> (len: usize)
        requires
            self.wf(),
        ensures
            len == ascending(self@).len(),
    {
        proof {
            lemma_ascending_is_the_listing(self.listing());
        }
        self.entries.len()
    }

    /// The key at one place in the order.
    pub fn key_at(&self, at: usize) -> (key: K)
        requires
            self.wf(),
            at < ascending(self@).len(),
        ensures
            key == ascending(self@)[at as int].0,
            self@.contains_key(key),
            self@[key] == ascending(self@)[at as int].1,
    {
        proof {
            lemma_ascending_is_the_listing(self.listing());
            lemma_entry_is_mapped(self.listing(), at as int);
        }
        self.entries[at].0
    }

    /// The value at one place in the order.
    pub fn value_at(&self, at: usize) -> (value: &V)
        requires
            self.wf(),
            at < ascending(self@).len(),
        ensures
            value@ == ascending(self@)[at as int].1,
    {
        proof {
            lemma_ascending_is_the_listing(self.listing());
        }
        &self.entries[at].1
    }

    /// Where `key` is, or where it would go.
    fn seek(&self, key: &K) -> (place: (usize, bool))
        requires
            self.wf(),
        ensures
            place.0 <= self.listing().len(),
            place.1 ==> lists_at(self.listing(), *key, place.0 as int),
            !place.1 ==> !self@.contains_key(*key),
            forall|i: int|
                0 <= i < place.0 ==> (#[trigger] self.listing()[i]).0.rank() < key.rank(),
            !place.1 ==> forall|i: int|
                place.0 <= i < self.listing().len() ==> key.rank() < (
                #[trigger] self.listing()[i]).0.rank(),
    {
        let ghost listing = self.listing();
        let mut at: usize = 0;
        while at < self.entries.len()
            invariant
                listing == self.listing(),
                sorted(listing),
                0 <= at <= listing.len(),
                listing.len() == self.entries@.len(),
                forall|i: int| 0 <= i < at ==> (#[trigger] listing[i]).0.rank() < key.rank(),
            decreases listing.len() - at,
        {
            assert(listing[at as int].0 == self.entries@[at as int].0);
            match self.entries[at].0.compare_rank(key) {
                Standing::Before => {},
                Standing::Same => {
                    return (at, true);
                },
                Standing::After => {
                    assert forall|i: int| at <= i < listing.len() implies key.rank() < (
                    #[trigger] listing[i]).0.rank() by {
                        assert(at == i || listing[at as int].0.rank() < listing[i].0.rank());
                    }
                    proof {
                        self.lemma_unlisted(*key, at as int);
                    }
                    return (at, false);
                },
            }
            at += 1;
        }
        proof {
            self.lemma_unlisted(*key, at as int);
        }
        (at, false)
    }

    proof fn lemma_unlisted(&self, key: K, at: int)
        requires
            self.wf(),
            0 <= at <= self.listing().len(),
            forall|i: int| 0 <= i < at ==> (#[trigger] self.listing()[i]).0.rank() < key.rank(),
            forall|i: int|
                at <= i < self.listing().len() ==> key.rank() < (
                #[trigger] self.listing()[i]).0.rank(),
        ensures
            !self@.contains_key(key),
    {
        if self@.contains_key(key) {
            let i = lemma_mapped_key_is_listed(self.listing(), key);
        }
    }

    /// Whether there is an entry for `key`.
    pub fn contains_key(&self, key: &K) -> (found: bool)
        requires
            self.wf(),
        ensures
            found == self@.contains_key(*key),
    {
        let (at, found) = self.seek(key);
        proof {
            if found {
                lemma_entry_is_mapped(self.listing(), at as int);
            }
        }
        found
    }

    /// What `key` maps to.
    pub fn get(&self, key: &K) -> (value: Option<&V>)
        requires
            self.wf(),
        ensures
            value is Some <==> self@.contains_key(*key),
            value matches Some(v) ==> v@ == self@[*key],
    {
        let (at, found) = self.seek(key);
        if found {
            proof {
                lemma_entry_is_mapped(self.listing(), at as int);
            }
            Some(&self.entries[at].1)
        } else {
            None
        }
    }

    /// Maps `key` to `value`, whatever it mapped to before.
    pub fn insert(&mut self, key: K, value: V)
        requires
            old(self).wf(),
        ensures
            final(self).wf(),
            final(self)@ == old(self)@.insert(key, value@),
    {
        let ghost before = self.listing();
        let (at, found) = self.seek(&key);
        if found {
            self.entries[at] = (key, value);
            proof {
                assert(self.listing() =~= before.update(at as int, (before[at as int].0, value@)));
                lemma_update(before, at as int, value@);
            }
        } else {
            self.entries.insert(at, (key, value));
            proof {
                assert(self.listing() =~= before.insert(at as int, (key, value@)));
                lemma_insert(before, at as int, key, value@);
            }
        }
    }

    /// Forgets `key`, saying whether there was anything to forget.
    pub fn remove(&mut self, key: &K) -> (found: bool)
        requires
            old(self).wf(),
        ensures
            final(self).wf(),
            found == old(self)@.contains_key(*key),
            final(self)@ == old(self)@.remove(*key),
    {
        let ghost before = self.listing();
        let (at, found) = self.seek(key);
        if found {
            proof {
                lemma_entry_is_mapped(before, at as int);
                lemma_remove(before, at as int);
            }
            let _ = self.entries.remove(at);
            assert(self.listing() =~= before.remove(at as int));
        } else {
            assert(self@ =~= old(self)@.remove(*key));
        }
        found
    }

    /// The entries run upwards, and are what the map says.
    pub proof fn lemma_is_listed(&self)
        requires
            self.wf(),
        ensures
            is_listed(self@),
    {
        lemma_ascending_is_the_listing(self.listing());
    }

    /// Writes over the value at one place in the order.
    pub fn set_value_at(&mut self, at: usize, value: V)
        requires
            old(self).wf(),
            at < ascending(old(self)@).len(),
        ensures
            final(self).wf(),
            ascending(final(self)@) == ascending(old(self)@).update(
                at as int,
                (ascending(old(self)@)[at as int].0, value@),
            ),
            final(self)@ == old(self)@.insert(ascending(old(self)@)[at as int].0, value@),
    {
        let ghost before = self.listing();
        proof {
            lemma_ascending_is_the_listing(before);
        }
        let key = self.entries[at].0;
        self.entries[at] = (key, value);
        proof {
            let after = before.update(at as int, (before[at as int].0, value@));
            assert(self.listing() =~= after);
            lemma_update(before, at as int, value@);
            lemma_ascending_is_the_listing(after);
        }
    }

    /// Strikes out the entry at one place in the order.
    pub fn remove_at(&mut self, at: usize)
        requires
            old(self).wf(),
            at < ascending(old(self)@).len(),
        ensures
            final(self).wf(),
            ascending(final(self)@) == ascending(old(self)@).remove(at as int),
            final(self)@ == old(self)@.remove(ascending(old(self)@)[at as int].0),
    {
        let ghost before = self.listing();
        proof {
            lemma_ascending_is_the_listing(before);
        }
        let _ = self.entries.remove(at);
        proof {
            let after = before.remove(at as int);
            assert(self.listing() =~= after);
            lemma_remove(before, at as int);
            lemma_ascending_is_the_listing(after);
        }
    }
}

/// Whether something dated `since` is younger than `expiry` at `now`.
pub open spec fn is_fresh(since: u64, now: u64, expiry: u64) -> bool {
    (if now >= since {
        now - since
    } else {
        0
    }) < expiry
}

/// A value that remembers an instant.
pub trait Dated: View {
    /// The instant it remembers.
    spec fn since(value: Self::V) -> u64;

    /// The instant it remembers.
    fn read_since(&self) -> (since: u64)
        ensures
            since == Self::since(self@),
    ;
}

/// The part of a map whose entries are still fresh.
pub open spec fn fresh_part<K, V: Dated>(map: Map<K, V::V>, now: u64, expiry: u64) -> Map<K, V::V> {
    Map::new(
        |key: K| map.contains_key(key) && is_fresh(V::since(map[key]), now, expiry),
        |key: K| map[key],
    )
}

impl<K: Ranked, V: Dated> SortedMap<K, V> {
    /// Forgets every entry that is not younger than `expiry` at `now`.
    pub fn forget_stale(&mut self, now: u64, expiry: u64)
        requires
            old(self).wf(),
        ensures
            final(self).wf(),
            final(self)@ == fresh_part::<K, V>(old(self)@, now, expiry),
    {
        let ghost before = self@;
        let mut at: usize = 0;
        while at < self.len()
            invariant
                self.wf(),
                0 <= at <= ascending(self@).len(),
                forall|k: K| #[trigger]
                    self@.contains_key(k) ==> before.contains_key(k) && self@[k] == before[k],
                forall|k: K|
                    #[trigger] before.contains_key(k) && is_fresh(V::since(before[k]), now, expiry)
                        ==> self@.contains_key(k),
                forall|i: int|
                    0 <= i < at ==> is_fresh(
                        V::since((#[trigger] ascending(self@)[i]).1),
                        now,
                        expiry,
                    ),
            decreases ascending(self@).len() - at,
        {
            let since = self.value_at(at).read_since();
            if now.saturating_sub(since) < expiry {
                at += 1;
            } else {
                let ghost was = self@;
                let ghost listed = ascending(self@);
                let ghost key = listed[at as int].0;
                proof {
                    self.lemma_is_listed();
                    lemma_entry_is_mapped(listed, at as int);
                }
                self.remove_at(at);
                assert forall|k: K| #[trigger] self@.contains_key(k) implies before.contains_key(k)
                    && self@[k] == before[k] by {
                    assert(was.contains_key(k));
                }
                assert forall|i: int| 0 <= i < at implies is_fresh(
                    V::since((#[trigger] ascending(self@)[i]).1),
                    now,
                    expiry,
                ) by {
                    assert(ascending(self@)[i] == listed[i]);
                }
            }
        }
        proof {
            self.lemma_is_listed();
            assert forall|k: K| #[trigger] self@.contains_key(k) implies is_fresh(
                V::since(before[k]),
                now,
                expiry,
            ) by {
                let i = lemma_mapped_key_is_listed(ascending(self@), k);
            }
            assert(self@ =~= fresh_part::<K, V>(before, now, expiry));
        }
    }
}

/// Something is fresh until as much time has passed since as the expiry allows,
/// and a clock that has gone back counts as no time at all.
pub proof fn law_freshness_ends_at_the_expiry(since: u64, now: u64, expiry: u64)
    ensures
        is_fresh(since, now, expiry) <==> expiry > 0 && now < since + expiry,
{
}

/// A map's listing names every key of the map once, in ascending order, with what
/// the map holds under it, and nothing else.
pub proof fn law_a_listing_names_every_key_once<K: Ranked, V>(map: Map<K, V>, key: K, at: int)
    requires
        is_listed(map),
    ensures
        ({
            let entries = ascending(map);
            &&& map.contains_key(key) <==> exists|i: int|
                0 <= i < entries.len() && (#[trigger] entries[i]).0 == key
            &&& 0 <= at < entries.len() ==> map.contains_key(entries[at].0) && map[entries[at].0]
                == entries[at].1
            &&& 0 < at < entries.len() ==> entries[at - 1].0.rank() < entries[at].0.rank()
            &&& entries.len() == map.dom().len()
            &&& map.dom().finite()
        }),
{
    let entries = ascending(map);
    if map.contains_key(key) {
        let i = lemma_mapped_key_is_listed(entries, key);
        assert(entries[i].0 == key);
    }
    if exists|i: int| 0 <= i < entries.len() && (#[trigger] entries[i]).0 == key {
        let i = choose|i: int| 0 <= i < entries.len() && (#[trigger] entries[i]).0 == key;
        lemma_entry_is_mapped(entries, i);
    }
    if 0 <= at < entries.len() {
        lemma_entry_is_mapped(entries, at);
    }
    let keys = entries.map_values(|entry: (K, V)| entry.0);
    assert forall|i: int, j: int| 0 <= i < j < keys.len() implies keys[i] != keys[j] by {
        assert(entries[i].0.rank() < entries[j].0.rank());
    }
    assert(keys.no_duplicates());
    keys.unique_seq_to_set();
    assert(keys.to_set() =~= map.dom()) by {
        assert forall|k: K| keys.to_set().contains(k) <==> map.dom().contains(k) by {
            if keys.to_set().contains(k) {
                let i = choose|i: int| 0 <= i < keys.len() && keys[i] == k;
                lemma_entry_is_mapped(entries, i);
            }
            if map.dom().contains(k) {
                let i = lemma_mapped_key_is_listed(entries, k);
                assert(keys[i] == k);
            }
        }
    }
    vstd::seq_lib::seq_to_set_is_finite(keys);
}

} // verus!
