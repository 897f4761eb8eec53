//! A map from text keys to lists of values that keeps its keys in the order in
//! which they were first seen.
use vstd::prelude::*;
use vstd::hash_map::StringHashMap;

use crate::order;
use crate::order::{is_text_before, Ranked};

verus! {

/// The position of `key` among `groups`, or their number where it is absent.
pub open spec fn slot_of<T>(groups: Seq<(Seq<char>, Seq<T>)>, key: Seq<char>) -> nat
    decreases groups.len(),
{
    if groups.len() == 0 || groups[0].0 == key {
        0
    } else {
        1 + slot_of(groups.drop_first(), key)
    }
}

/// `groups` after `value` has been added to the list of `key`.
pub open spec fn with_value<T>(groups: Seq<(Seq<char>, Seq<T>)>, key: Seq<char>, value: T) -> Seq<
    (Seq<char>, Seq<T>),
> {
    let i = slot_of(groups, key) as int;
    if i < groups.len() {
        groups.update(i, (key, groups[i].1.push(value)))
    } else {
        groups.push((key, seq![value]))
    }
}

/// The groups that a sequence of additions leaves, in order of first sight.
pub open spec fn grouped<T>(pairs: Seq<(Seq<char>, T)>) -> Seq<(Seq<char>, Seq<T>)>
    decreases pairs.len(),
{
    if pairs.len() == 0 {
        Seq::empty()
    } else {
        with_value(grouped(pairs.drop_last()), pairs.last().0, pairs.last().1)
    }
}

/// `groups` after a sequence of additions.
pub open spec fn extended<T>(
    groups: Seq<(Seq<char>, Seq<T>)>,
    pairs: Seq<(Seq<char>, T)>,
) -> Seq<(Seq<char>, Seq<T>)>
    decreases pairs.len(),
{
    if pairs.len() == 0 {
        groups
    } else {
        with_value(extended(groups, pairs.drop_last()), pairs.last().0, pairs.last().1)
    }
}

/// Additions to an empty map leave the groups of the additions.
pub proof fn law_extending_nothing_groups<T>(pairs: Seq<(Seq<char>, T)>)
    ensures
        extended(Seq::empty(), pairs) == grouped(pairs),
    decreases pairs.len(),
{
    if pairs.len() > 0 {
        law_extending_nothing_groups(pairs.drop_last());
    }
}

/// The values that `pairs` holds for `key`, in order.
pub open spec fn values_for<T>(pairs: Seq<(Seq<char>, T)>, key: Seq<char>) -> Seq<T>
    decreases pairs.len(),
{
    if pairs.len() == 0 {
        Seq::empty()
    } else if pairs.last().0 == key {
        values_for(pairs.drop_last(), key).push(pairs.last().1)
    } else {
        values_for(pairs.drop_last(), key)
    }
}

/// No key occurs twice.
pub open spec fn keys_distinct<T>(groups: Seq<(Seq<char>, Seq<T>)>) -> bool {
    forall|i: int, j: int|
        #![trigger groups[i], groups[j]]
        0 <= i < j < groups.len() ==> groups[i].0 != groups[j].0
}

/// The list that `groups` holds for `key`: empty where it holds none.
pub open spec fn list_of<T>(groups: Seq<(Seq<char>, Seq<T>)>, key: Seq<char>) -> Seq<T> {
    if slot_of(groups, key) < groups.len() {
        groups[slot_of(groups, key) as int].1
    } else {
        Seq::empty()
    }
}

pub proof fn lemma_slot_of<T>(groups: Seq<(Seq<char>, Seq<T>)>, key: Seq<char>)
    ensures
        slot_of(groups, key) <= groups.len(),
        slot_of(groups, key) < groups.len() ==> groups[slot_of(groups, key) as int].0 == key,
        forall|k: int| 0 <= k < slot_of(groups, key) ==> (#[trigger] groups[k]).0 != key,
    decreases groups.len(),
{
    if groups.len() > 0 && groups[0].0 != key {
        let rest = groups.drop_first();
        lemma_slot_of(rest, key);
        assert forall|k: int| 0 <= k < slot_of(groups, key) implies (#[trigger] groups[k]).0
            != key by {
            if k > 0 {
                assert(rest[k - 1] == groups[k]);
            }
        }
        if slot_of(groups, key) < groups.len() {
            assert(rest[slot_of(rest, key) as int] == groups[slot_of(groups, key) as int]);
        }
    }
}

/// A key that occurs at `i` in a map without repeated keys has that slot.
pub proof fn lemma_slot_at<T>(groups: Seq<(Seq<char>, Seq<T>)>, i: int)
    requires
        keys_distinct(groups),
        0 <= i < groups.len(),
    ensures
        slot_of(groups, groups[i].0) == i,
{
    lemma_slot_of(groups, groups[i].0);
}

pub proof fn lemma_grouped_distinct<T>(pairs: Seq<(Seq<char>, T)>)
    ensures
        keys_distinct(grouped(pairs)),
    decreases pairs.len(),
{
    if pairs.len() > 0 {
        lemma_grouped_distinct(pairs.drop_last());
        lemma_slot_of(grouped(pairs.drop_last()), pairs.last().0);
    }
}

/// Reading a key gives back exactly the values that were added for it, in the
/// order in which they were added.
pub proof fn law_read_gives_back_what_was_added<T>(pairs: Seq<(Seq<char>, T)>, key: Seq<char>)
    ensures
        list_of(grouped(pairs), key) == values_for(pairs, key),
    decreases pairs.len(),
{
    if pairs.len() > 0 {
        let before = grouped(pairs.drop_last());
        let added = pairs.last().0;
        law_read_gives_back_what_was_added(pairs.drop_last(), key);
        lemma_grouped_distinct(pairs);
        lemma_slot_of(before, key);
        lemma_slot_of(before, added);
        lemma_slot_of(grouped(pairs), key);
        let at = slot_of(before, key) as int;
        if at < before.len() {
            assert(grouped(pairs)[at].0 == key);
            lemma_slot_at(grouped(pairs), at);
        } else if added == key {
            lemma_slot_at(grouped(pairs), before.len() as int);
        } else {
            if slot_of(grouped(pairs), key) < grouped(pairs).len() {
                assert(grouped(pairs)[slot_of(grouped(pairs), key) as int].0 == key);
                assert(false);
            }
        }
    }
}

/// A key with the values that were added under it.
pub struct Group<V> {
    pub key: String,
    pub values: Vec<V>,
}

impl<V: View> View for Group<V> {
    type V = (Seq<char>, Seq<V::V>);

    open spec fn view(&self) -> (Seq<char>, Seq<V::V>) {
        (self.key@, order::views(self.values@))
    }
}

/// Groups with more values come first; of equal ones the smaller key does.
impl<V: View> Ranked for Group<V> {
    open spec fn ahead(a: (Seq<char>, Seq<V::V>), b: (Seq<char>, Seq<V::V>)) -> bool {
        a.1.len() > b.1.len() || a.1.len() == b.1.len() && order::text_before(a.0, b.0)
    }

    fn is_ahead(&self, other: &Self) -> bool {
        let n: usize = self.values.len();
        let m: usize = other.values.len();
        n > m || n == m && is_text_before(self.key.as_str(), other.key.as_str())
    }

    proof fn ahead_is_asymmetric(a: (Seq<char>, Seq<V::V>), b: (Seq<char>, Seq<V::V>)) {
        order::lemma_text_before_asymmetric(a.0, b.0);
    }

    proof fn ahead_is_weak(
        a: (Seq<char>, Seq<V::V>),
        b: (Seq<char>, Seq<V::V>),
        c: (Seq<char>, Seq<V::V>),
    ) {
        if Self::ahead(c, a) && a.1.len() == b.1.len() && b.1.len() == c.1.len() {
            order::lemma_text_before_total(a.0, b.0);
            order::lemma_text_before_total(b.0, c.0);
            if order::text_before(a.0, b.0) && order::text_before(b.0, c.0) {
                order::lemma_text_before_transitive(a.0, b.0, c.0);
            }
            order::lemma_text_before_asymmetric(a.0, c.0);
        }
    }
}

/// An insertion-ordered map from text to lists of values.
pub struct GroupMap<V> {
    entries: Vec<Group<V>>,
    index: StringHashMap<usize>,
}

impl<V: View> GroupMap<V> {
    /// The groups, in the order in which their keys were first seen.
    pub closed spec fn groups(self) -> Seq<(Seq<char>, Seq<V::V>)> {
        order::views(self.entries@)
    }

    /// The index leads from each key to its group, and to nothing else.
    pub closed spec fn well_formed(self) -> bool {
        &&& keys_distinct(self.groups())
        &&& forall|i: int|
            0 <= i < self.entries@.len() ==> self.index@.contains_key(
                #[trigger] self.entries@[i].key@,
            ) && self.index@[self.entries@[i].key@] == i
        &&& forall|k: Seq<char>| #[trigger]
            self.index@.contains_key(k) ==> self.index@[k] < self.entries@.len()
                && self.entries@[self.index@[k] as int].key@ == k
    }

    /// An empty map.
    pub fn new() -> (r: Self)
        ensures
            r.well_formed(),
            r.groups() == Seq::<(Seq<char>, Seq<V::V>)>::empty(),
    {
        let r = GroupMap { entries: Vec::new(), index: StringHashMap::new() };
        assert(r.groups() == Seq::<(Seq<char>, Seq<V::V>)>::empty());
        r
    }

    /// Adds `value` to the list of `key`.
    pub fn push(&mut self, key: &str, value: V)
        requires
            old(self).well_formed(),
        ensures
            final(self).well_formed(),
            final(self).groups() == with_value(old(self).groups(), key@, value@),
    {
        let ghost before = *self;
        proof {
            lemma_slot_of(self.groups(), key@);
        }
        let found: Option<usize> = match self.index.get(key) {
            Some(i) => Some(*i),
            None => None,
        };
        match found {
            Some(i) => {
                assert(self.groups()[i as int].0 == key@);
                proof {
                    lemma_slot_at(self.groups(), i as int);
                }
                self.entries[i].values.push(value);
                assert(self.groups() =~~= with_value(before.groups(), key@, value@));
                assert(forall|k: int|
                    0 <= k < self.entries@.len() ==> (#[trigger] self.entries@[k]).key
                        == before.entries@[k].key);
            },
            None => {
                let n: usize = self.entries.len();
                let mut list: Vec<V> = Vec::new();
                list.push(value);
                self.entries.push(Group { key: key.to_owned(), values: list });
                self.index.insert(key.to_owned(), n);
                proof {
                    if slot_of(before.groups(), key@) < before.groups().len() {
                        let j = slot_of(before.groups(), key@) as int;
                        assert(before.groups()[j].0 == before.entries@[j].key@);
                    }
                    assert(self.groups() =~~= with_value(before.groups(), key@, value@));
                    assert forall|k: int| 0 <= k < n implies (#[trigger] self.entries@[k]).key@
                        != key@ by {
                        assert(self.entries@[k] == before.entries@[k]);
                    }
                }
            },
        }
    }

    /// The values added under `key`, if there are any.
    pub fn get(&self, key: &str) -> (r: Option<&Vec<V>>)
        requires
            self.well_formed(),
        ensures
            r is Some <==> slot_of(self.groups(), key@) < self.groups().len(),
            match r {
                Some(list) => order::views(list@) == list_of(self.groups(), key@),
                None => list_of(self.groups(), key@) == Seq::<V::V>::empty(),
            },
    {
        proof {
            lemma_slot_of(self.groups(), key@);
        }
        match self.index.get(key) {
            Some(i) => {
                assert(self.groups()[*i as int].0 == key@);
                proof {
                    lemma_slot_at(self.groups(), *i as int);
                }
                Some(&self.entries[*i].values)
            },
            None => {
                proof {
                    if slot_of(self.groups(), key@) < self.groups().len() {
                        let j = slot_of(self.groups(), key@) as int;
                        assert(self.groups()[j].0 == self.entries@[j].key@);
                    }
                }
                None
            },
        }
    }

    /// Hands the groups out, in the order in which their keys were first seen.
    pub fn into_groups(self) -> (r: Vec<Group<V>>)
        ensures
            order::views(r@) == self.groups(),
    {
        self.entries
    }
}

/// A key is read with exactly the values that were added under it, in their order:
/// those of two lists of additions are the ones of the first and then the ones of
/// the second.
pub proof fn law_values_for<T>(
    a: Seq<(Seq<char>, T)>,
    b: Seq<(Seq<char>, T)>,
    key: Seq<char>,
    value: T,
)
    ensures
        values_for(a + b, key) == values_for(a, key) + values_for(b, key),
        values_for(seq![(key, value)], key) == seq![value],
        values_for(a, key).contains(value) <==> a.contains((key, value)),
        values_for(a, key).len() > 0 <==> exists|k: int|
            0 <= k < a.len() && (#[trigger] a[k]).0 == key,
    decreases b.len(),
{
    lemma_values_hold(a, key, value);
    lemma_values_present(a, key);
    assert(seq![(key, value)].drop_last() == Seq::<(Seq<char>, T)>::empty());
    assert(seq![(key, value)].last() == (key, value));
    reveal_with_fuel(values_for, 2);
    assert(Seq::<T>::empty().push(value) == seq![value]);
    if b.len() == 0 {
        assert(a + b == a);
        assert(values_for(a, key) + values_for(b, key) == values_for(a, key));
    } else {
        law_values_for(a, b.drop_last(), key, value);
        assert((a + b).drop_last() == a + b.drop_last());
        assert((a + b).last() == b.last());
        assert(values_for(a + b, key) == values_for(a, key) + values_for(b, key));
    }
}

proof fn lemma_values_hold<T>(pairs: Seq<(Seq<char>, T)>, key: Seq<char>, value: T)
    ensures
        values_for(pairs, key).contains(value) <==> pairs.contains((key, value)),
    decreases pairs.len(),
{
    if pairs.len() > 0 {
        let rest = pairs.drop_last();
        lemma_values_hold(rest, key, value);
        assert(pairs == rest.push(pairs.last()));
        order::lemma_contains_push(rest, pairs.last(), (key, value));
        order::lemma_contains_push(values_for(rest, key), pairs.last().1, value);
    }
}

proof fn lemma_values_present<T>(pairs: Seq<(Seq<char>, T)>, key: Seq<char>)
    ensures
        values_for(pairs, key).len() > 0 <==> exists|k: int|
            0 <= k < pairs.len() && (#[trigger] pairs[k]).0 == key,
    decreases pairs.len(),
{
    if pairs.len() > 0 {
        let rest = pairs.drop_last();
        lemma_values_present(rest, key);
        assert(pairs[pairs.len() - 1] == pairs.last());
        if exists|k: int| 0 <= k < rest.len() && (#[trigger] rest[k]).0 == key {
            let k = choose|k: int| 0 <= k < rest.len() && (#[trigger] rest[k]).0 == key;
            assert(pairs[k] == rest[k]);
        }
        if exists|k: int| 0 <= k < pairs.len() && (#[trigger] pairs[k]).0 == key {
            let k = choose|k: int| 0 <= k < pairs.len() && (#[trigger] pairs[k]).0 == key;
            if k < rest.len() {
                assert(rest[k] == pairs[k]);
            }
        }
    }
}

/// Additions to a map add to the list of each key what is added under it, and keep
/// what the list held before.
pub proof fn law_additions_extend_lists<T>(
    groups: Seq<(Seq<char>, Seq<T>)>,
    pairs: Seq<(Seq<char>, T)>,
    key: Seq<char>,
)
    requires
        keys_distinct(groups),
    ensures
        keys_distinct(extended(groups, pairs)),
        list_of(extended(groups, pairs), key) == list_of(groups, key) + values_for(pairs, key),
    decreases pairs.len(),
{
    if pairs.len() == 0 {
        assert(list_of(groups, key) + values_for(pairs, key) == list_of(groups, key));
    } else {
        let rest = pairs.drop_last();
        law_additions_extend_lists(groups, rest, key);
        let before = extended(groups, rest);
        let after = extended(groups, pairs);
        let added = pairs.last().0;
        lemma_slot_of(before, key);
        lemma_slot_of(before, added);
        assert(keys_distinct(after));
        lemma_slot_of(after, key);
        let at = slot_of(before, key) as int;
        if at < before.len() {
            assert(after[at].0 == key);
            lemma_slot_at(after, at);
        } else if added == key {
            lemma_slot_at(after, before.len() as int);
        } else if slot_of(after, key) < after.len() {
            assert(after[slot_of(after, key) as int].0 == key);
        }
        assert(list_of(after, key) == list_of(groups, key) + values_for(pairs, key));
    }
}

/// Each key that something was added under has one group, which holds all that was
/// added under it; there are no other groups.
pub proof fn law_groups_are_complete<T>(pairs: Seq<(Seq<char>, T)>, key: Seq<char>, list: Seq<T>)
    ensures
        grouped(pairs).contains((key, list)) <==> values_for(pairs, key).len() > 0 && list
            == values_for(pairs, key),
        keys_distinct(grouped(pairs)),
{
    let groups = grouped(pairs);
    lemma_grouped_distinct(pairs);
    law_read_gives_back_what_was_added(pairs, key);
    lemma_slot_of(groups, key);
    lemma_groups_filled(pairs);
    let at = slot_of(groups, key) as int;
    if groups.contains((key, list)) {
        let i = choose|i: int| 0 <= i < groups.len() && groups[i] == (key, list);
        lemma_slot_at(groups, i);
        assert(groups[i].1.len() > 0);
    }
    if values_for(pairs, key).len() > 0 {
        assert(at < groups.len());
        assert(groups[at] == (key, values_for(pairs, key)));
    }
}

proof fn lemma_groups_filled<T>(pairs: Seq<(Seq<char>, T)>)
    ensures
        forall|i: int| 0 <= i < grouped(pairs).len() ==> (#[trigger] grouped(pairs)[i]).1.len() > 0,
    decreases pairs.len(),
{
    if pairs.len() > 0 {
        let before = grouped(pairs.drop_last());
        let after = grouped(pairs);
        lemma_groups_filled(pairs.drop_last());
        lemma_slot_of(before, pairs.last().0);
        let at = slot_of(before, pairs.last().0) as int;
        assert forall|i: int| 0 <= i < after.len() implies (#[trigger] after[i]).1.len() > 0 by {
            if i < before.len() && i != at {
                assert(after[i] == before[i]);
            }
        }
    }
}

/// Groups stand in the order of their sizes, the largest first, and those of equal
/// size in the order of their keys. Nothing is lost.
pub proof fn law_largest_groups_first<V: View>(
    list: Seq<(Seq<char>, Seq<V::V>)>,
    i: int,
    j: int,
)
    requires
        0 <= i < j < order::ranked::<Group<V>>(list).len(),
    ensures
        ({
            let sorted = order::ranked::<Group<V>>(list);
            &&& sorted[i].1.len() >= sorted[j].1.len()
            &&& sorted[i].1.len() == sorted[j].1.len() ==> !order::text_before(
                sorted[j].0,
                sorted[i].0,
            )
            &&& sorted.len() == list.len()
            &&& sorted.to_multiset() == list.to_multiset()
        }),
{
    order::law_ranked_is_ordered_permutation::<Group<V>>(list);
    let sorted = order::ranked::<Group<V>>(list);
    assert(!<Group<V> as Ranked>::ahead(sorted[j], sorted[i]));
}

/// Sorting groups keeps each of them.
pub proof fn lemma_ranked_holds<V: View>(
    list: Seq<(Seq<char>, Seq<V::V>)>,
    group: (Seq<char>, Seq<V::V>),
)
    ensures
        order::ranked::<Group<V>>(list).contains(group) <==> list.contains(group),
{
    broadcast use vstd::seq_lib::group_to_multiset_ensures;

    order::law_ranked_is_ordered_permutation::<Group<V>>(list);
    let sorted = order::ranked::<Group<V>>(list);
    assert(sorted.to_multiset().count(group) == list.to_multiset().count(group));
}

}
