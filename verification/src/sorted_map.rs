//! A map that keeps its entries in the order of their keys.

use vstd::prelude::*;

use crate::order::{Ordered, Place};
use crate::order;

verus! {

/// A key of a [`SortedMap`]: its view is ordered, and two keys can be compared by their views.
pub trait MapKey: View where Self::V: Ordered {
    /// How `self` stands to `other` in the order of the views.
    fn place(&self, other: &Self) -> (res: Place)
        ensures
            order::placed(self@, other@, res),
    ;
}

/// The entries of a list, a later one taking the place of an earlier one with the same key.
pub open spec fn map_of<A, B>(list: Seq<(A, B)>) -> Map<A, B>
    decreases list.len(),
{
    if list.len() == 0 {
        Map::empty()
    } else {
        map_of(list.drop_last()).insert(list.last().0, list.last().1)
    }
}

/// Whether the keys of a list rise strictly.
pub open spec fn keys_rise<A: Ordered, B>(list: Seq<(A, B)>) -> bool {
    forall|i: int, j: int| 0 <= i < j < list.len() ==> (#[trigger] list[i]).0.before((#[trigger] list[j]).0)
}

/// A map from keys to values; the entries stand in the order of the keys and no key occurs
/// twice.
#[derive(Debug)]
pub struct SortedMap<K: MapKey, V: View> where K::V: Ordered {
    entries: Vec<(K, V)>,
}

/// What the entries hold.
pub open spec fn views_of<K: View, V: View>(entries: Seq<(K, V)>) -> Seq<(K::V, V::V)> {
    entries.map_values(|e: (K, V)| (e.0@, e.1@))
}

/// The keys themselves of the entries, each under what it is compared by.
pub open spec fn keys_of<K: View, V>(entries: Seq<(K, V)>) -> Seq<(K::V, K)> {
    entries.map_values(|e: (K, V)| (e.0@, e.0))
}

impl<K: MapKey, V: View> View for SortedMap<K, V> where K::V: Ordered {
    type V = Map<K::V, V::V>;

    open spec fn view(&self) -> Map<K::V, V::V> {
        map_of(self.listing())
    }
}

impl<K: MapKey, V: View> SortedMap<K, V> where K::V: Ordered {
    /// The entries in the order of their keys.
    pub closed spec fn listing(&self) -> Seq<(K::V, V::V)> {
        views_of(self.entries@)
    }

    /// The keys themselves, each under what it is compared by: two keys that are not the same can
    /// be compared as the same, and this says which of them the map holds.
    pub closed spec fn keys(&self) -> Map<K::V, K> {
        map_of(keys_of(self.entries@))
    }

    #[verifier::type_invariant]
    spec fn sorted(self) -> bool {
        keys_rise(views_of(self.entries@))
    }

    /// An empty map.
    pub fn new() -> (res: Self)
        ensures
            res@ == Map::<K::V, V::V>::empty(),
            res.keys() == Map::<K::V, K>::empty(),
    {
        let res = SortedMap { entries: Vec::new() };
        assert(res.listing() =~= Seq::empty());
        assert(keys_of(res.entries@) =~= Seq::empty());
        res
    }

    /// The number of entries.
    pub fn len(&self) -> (res: usize)
        ensures
            res == self.listing().len(),
            self@.dom().finite(),
            res == self@.dom().len(),
    {
        proof {
            use_type_invariant(self);
            lemma_map_len(self.listing());
        }
        self.entries.len()
    }

    /// The entries, in the order of their keys.
    pub fn entries(&self) -> (res: &Vec<(K, V)>)
        ensures
            views_of(res@) == self.listing(),
            keys_rise(self.listing()),
            map_of(keys_of(res@)) == self.keys(),
    {
        proof {
            use_type_invariant(self);
        }
        &self.entries
    }

    /// The place of the first entry whose key does not come before `key`.
    fn seek(entries: &Vec<(K, V)>, key: &K) -> (res: (usize, bool))
        requires
            keys_rise(views_of(entries@)),
        ensures
            res.0 <= entries.len(),
            forall|i: int| 0 <= i < res.0 ==> (#[trigger] views_of(entries@)[i]).0.before(key@),
            res.1 ==> res.0 < entries.len() && views_of(entries@)[res.0 as int].0 == key@,
            !res.1 ==> forall|i: int| res.0 <= i < entries.len() ==> key@.before((#[trigger] views_of(entries@)[i]).0),
    {
        let ghost list = views_of(entries@);
        let mut i: usize = 0;
        while i < entries.len()
            invariant
                list == views_of(entries@),
                keys_rise(list),
                i <= entries.len(),
                forall|j: int| 0 <= j < i ==> (#[trigger] list[j]).0.before(key@),
            decreases entries.len() - i,
        {
            assert(list[i as int].0 == entries@[i as int].0@);
            match entries[i].0.place(key) {
                Place::Before => {
                    i += 1;
                },
                Place::Same => {
                    return (i, true);
                },
                Place::After => {
                    assert forall|j: int| i <= j < entries.len() implies key@.before((#[trigger] list[j]).0) by {
                        if j > i {
                            K::V::order_laws(key@, list[i as int].0, list[j].0);
                        }
                    }
                    return (i, false);
                },
            }
        }
        (i, false)
    }

    /// Maps `key` to `value`. A key that is there already stays as it is, and gets the new value.
    pub fn insert(&mut self, key: K, value: V)
        ensures
            final(self)@ == old(self)@.insert(key@, value@),
            final(self).keys() == if old(self)@.contains_key(key@) {
                old(self).keys()
            } else {
                old(self).keys().insert(key@, key)
            },
    {
        proof {
            use_type_invariant(&*self);
            lemma_map_of(self.listing());
        }
        let mut entries: Vec<(K, V)> = Vec::new();
        std::mem::swap(&mut entries, &mut self.entries);
        let ghost before = views_of(entries@);
        let ghost keys = keys_of(entries@);
        let (i, found) = Self::seek(&entries, &key);
        if found {
            let (kept, _) = entries.remove(i);
            entries.insert(i, (kept, value));
            proof {
                assert(views_of(entries@) =~= before.update(i as int, (key@, value@)));
                lemma_update(before, i as int, key@, value@);
                assert(before[i as int].0 == key@);
                assert(keys_of(entries@) =~= keys);
            }
        } else {
            entries.insert(i, (key, value));
            proof {
                assert(views_of(entries@) =~= before.insert(i as int, (key@, value@)));
                assert(keys_of(entries@) =~= keys.insert(i as int, (key@, key)));
                assert forall|a: int, b: int| 0 <= a < b < keys.len() implies (#[trigger] keys[a]).0.before(
                    (#[trigger] keys[b]).0,
                ) by {
                    assert(before[a].0.before(before[b].0));
                }
                assert forall|j: int| 0 <= j < i implies (#[trigger] keys[j]).0.before(key@) by {
                    assert(before[j].0.before(key@));
                }
                assert forall|j: int| i <= j < keys.len() implies key@.before((#[trigger] keys[j]).0) by {
                    assert(key@.before(before[j].0));
                }
                lemma_insert(keys, i as int, key@, key);
                if map_of(before).contains_key(key@) {
                    let j = choose|j: int| 0 <= j < before.len() && (#[trigger] before[j]).0 == key@;
                    K::V::order_laws(key@, key@, key@);
                }
                lemma_insert(before, i as int, key@, value@);
            }
        }
        self.entries = entries;
    }

    /// The value of `key`, if it has one.
    pub fn get(&self, key: &K) -> (res: Option<&V>)
        ensures
            match res {
                Some(value) => self@.contains_key(key@) && value@ == self@[key@],
                None => !self@.contains_key(key@),
            },
    {
        proof {
            use_type_invariant(self);
            lemma_map_of(self.listing());
        }
        let (i, found) = Self::seek(&self.entries, key);
        if found {
            proof {
                assert(self.listing()[i as int].0 == key@);
            }
            Some(&self.entries[i].1)
        } else {
            proof {
                if self@.contains_key(key@) {
                    let j = choose|j: int| 0 <= j < self.listing().len() && (#[trigger] self.listing()[j]).0 == key@;
                    K::V::order_laws(key@, key@, key@);
                }
            }
            None
        }
    }
}

/// In a list whose keys rise, each entry is in the map, and nothing else is.
pub proof fn lemma_map_of<A: Ordered, B>(list: Seq<(A, B)>)
    requires
        keys_rise(list),
    ensures
        forall|i: int| #![trigger list[i]] 0 <= i < list.len() ==> map_of(list).contains_key(list[i].0)
            && map_of(list)[list[i].0] == list[i].1,
        forall|k: A| #[trigger] map_of(list).contains_key(k) ==> exists|i: int| 0 <= i < list.len() && (#[trigger] list[i]).0 == k,
    decreases list.len(),
{
    if list.len() > 0 {
        let rest = list.drop_last();
        assert forall|i: int, j: int| 0 <= i < j < rest.len() implies (#[trigger] rest[i]).0.before((#[trigger] rest[j]).0) by {
            assert(rest[i] == list[i] && rest[j] == list[j]);
        }
        lemma_map_of(rest);
        assert forall|i: int| #![trigger list[i]] 0 <= i < list.len() implies map_of(list).contains_key(list[i].0)
            && map_of(list)[list[i].0] == list[i].1 by {
            if i < list.len() - 1 {
                assert(rest[i] == list[i]);
                A::order_laws(list[i].0, list[i].0, list[i].0);
                assert(list[i].0.before(list[list.len() - 1].0));
            }
        }
        assert forall|k: A| #[trigger] map_of(list).contains_key(k) implies exists|i: int| 0 <= i < list.len() && (#[trigger] list[i]).0 == k by {
            if k == list.last().0 {
                assert(list[list.len() - 1].0 == k);
            } else {
                assert(map_of(rest).contains_key(k));
                let i = choose|i: int| 0 <= i < rest.len() && (#[trigger] rest[i]).0 == k;
                assert(list[i].0 == k);
            }
        }
    }
}

/// A list whose keys rise gives the map as many entries as it has.
proof fn lemma_map_len<A: Ordered, B>(list: Seq<(A, B)>)
    requires
        keys_rise(list),
    ensures
        map_of(list).dom().finite(),
        map_of(list).dom().len() == list.len(),
    decreases list.len(),
{
    if list.len() > 0 {
        let rest = list.drop_last();
        let key = list.last().0;
        assert forall|i: int, j: int| 0 <= i < j < rest.len() implies (#[trigger] rest[i]).0.before((#[trigger] rest[j]).0) by {
            assert(rest[i] == list[i] && rest[j] == list[j]);
        }
        lemma_map_len(rest);
        lemma_map_of(rest);
        if map_of(rest).contains_key(key) {
            let j = choose|j: int| 0 <= j < rest.len() && (#[trigger] rest[j]).0 == key;
            assert(list[j].0.before(list[list.len() - 1].0));
            A::order_laws(key, key, key);
        }
        assert(map_of(list).dom() =~= map_of(rest).dom().insert(key));
    }
}

proof fn lemma_update<A: Ordered, B>(list: Seq<(A, B)>, i: int, key: A, value: B)
    requires
        keys_rise(list),
        0 <= i < list.len(),
        list[i].0 == key,
    ensures
        keys_rise(list.update(i, (key, value))),
        map_of(list.update(i, (key, value))) == map_of(list).insert(key, value),
{
    let new = list.update(i, (key, value));
    assert forall|a: int, b: int| 0 <= a < b < new.len() implies (#[trigger] new[a]).0.before((#[trigger] new[b]).0) by {
        assert(list[a].0.before(list[b].0));
    }
    lemma_map_of(list);
    lemma_map_of(new);
    assert forall|k: A| map_of(new).contains_key(k) <==> map_of(list).insert(key, value).contains_key(k) by {
        if map_of(new).contains_key(k) {
            let j = choose|j: int| 0 <= j < new.len() && (#[trigger] new[j]).0 == k;
            assert(list[j].0 == k);
        }
        if map_of(list).contains_key(k) {
            let j = choose|j: int| 0 <= j < list.len() && (#[trigger] list[j]).0 == k;
            assert(new[j].0 == k);
        }
        assert(new[i].0 == key);
    }
    assert forall|k: A| map_of(new).contains_key(k) implies #[trigger] map_of(new)[k] == map_of(list).insert(key, value)[k] by {
        let j = choose|j: int| 0 <= j < new.len() && (#[trigger] new[j]).0 == k;
        assert(list[j].0 == k);
        if j != i {
            A::order_laws(key, key, key);
        }
    }
    assert(map_of(new) =~= map_of(list).insert(key, value));
}

proof fn lemma_insert<A: Ordered, B>(list: Seq<(A, B)>, i: int, key: A, value: B)
    requires
        keys_rise(list),
        0 <= i <= list.len(),
        forall|j: int| 0 <= j < i ==> (#[trigger] list[j]).0.before(key),
        forall|j: int| i <= j < list.len() ==> key.before((#[trigger] list[j]).0),
    ensures
        keys_rise(list.insert(i, (key, value))),
        map_of(list.insert(i, (key, value))) == map_of(list).insert(key, value),
{
    let new = list.insert(i, (key, value));
    assert(new[i] == (key, value));
    assert(forall|a: int| 0 <= a < i ==> new[a] == list[a]);
    assert(forall|a: int| i < a < new.len() ==> new[a] == list[a - 1]);
    assert forall|a: int, b: int| 0 <= a < b < new.len() implies (#[trigger] new[a]).0.before((#[trigger] new[b]).0) by {
        let x = if a < i { a } else { a - 1 };
        let y = if b < i { b } else { b - 1 };
        if a != i && b != i {
            assert(list[x].0.before(list[y].0));
        }
    }
    lemma_map_of(list);
    lemma_map_of(new);
    A::order_laws(key, key, key);
    assert forall|k: A| map_of(new).contains_key(k) <==> map_of(list).insert(key, value).contains_key(k) by {
        if map_of(new).contains_key(k) {
            let j = choose|j: int| 0 <= j < new.len() && (#[trigger] new[j]).0 == k;
            if j != i {
                let x = if j < i { j } else { j - 1 };
                assert(list[x].0 == k);
            }
        }
        if map_of(list).contains_key(k) {
            let j = choose|j: int| 0 <= j < list.len() && (#[trigger] list[j]).0 == k;
            let x = if j < i { j } else { j + 1 };
            assert(new[x].0 == k);
        }
        assert(new[i].0 == key);
    }
    assert forall|k: A| map_of(new).contains_key(k) implies #[trigger] map_of(new)[k] == map_of(list).insert(key, value)[k] by {
        let j = choose|j: int| 0 <= j < new.len() && (#[trigger] new[j]).0 == k;
        if j != i {
            let x = if j < i { j } else { j - 1 };
            assert(list[x] == new[j]);
        }
    }
    assert(map_of(new) =~= map_of(list).insert(key, value));
}

} // verus!
