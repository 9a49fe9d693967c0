//! Maps from strings to values that keep their keys in string order.

use vstd::prelude::*;
use crate::text::{same_text, text_less, text_less_asymmetric, text_order, TextOrder};

verus! {

/// The keys of `p` increase strictly.
pub open spec fn sorted_by_key<V>(p: Seq<(Seq<char>, V)>) -> bool {
    forall|i: int, j: int| 0 <= i < j < p.len() ==> text_less(#[trigger] p[i].0, #[trigger] p[j].0)
}

/// Some pair of `p` has the key `k`.
pub open spec fn holds_key<V>(p: Seq<(Seq<char>, V)>, k: Seq<char>) -> bool {
    exists|i: int| 0 <= i < p.len() && #[trigger] p[i].0 == k
}

/// Where `p` holds the key `k`.
pub open spec fn position_of<V>(p: Seq<(Seq<char>, V)>, k: Seq<char>) -> int {
    choose|i: int| 0 <= i < p.len() && #[trigger] p[i].0 == k
}

/// The map that a sequence of pairs with distinct keys describes.
pub open spec fn as_map<V>(p: Seq<(Seq<char>, V)>) -> Map<Seq<char>, V> {
    Map::new(|k: Seq<char>| holds_key(p, k), |k: Seq<char>| p[position_of(p, k)].1)
}

/// In a sequence sorted by key, a key stands at one position only.
pub proof fn sorted_positions_unique<V>(p: Seq<(Seq<char>, V)>, i: int, j: int)
    requires
        sorted_by_key(p),
        0 <= i < p.len(),
        0 <= j < p.len(),
        p[i].0 == p[j].0,
    ensures
        i == j,
{
    if i < j {
        text_less_asymmetric(p[i].0, p[j].0);
    } else if j < i {
        text_less_asymmetric(p[j].0, p[i].0);
    }
}

/// The pair at position `i` is what the map holds for its key.
pub proof fn as_map_at<V>(p: Seq<(Seq<char>, V)>, i: int)
    requires
        sorted_by_key(p),
        0 <= i < p.len(),
    ensures
        as_map(p).contains_key(p[i].0),
        as_map(p)[p[i].0] == p[i].1,
        position_of(p, p[i].0) == i,
{
    assert(holds_key(p, p[i].0));
    sorted_positions_unique(p, position_of(p, p[i].0), i);
}

/// The keys alone.
pub open spec fn pair_keys<V>(p: Seq<(Seq<char>, V)>) -> Seq<Seq<char>> {
    Seq::new(p.len(), |i: int| p[i].0)
}

/// The map has as many keys as there are pairs.
pub proof fn as_map_len<V>(p: Seq<(Seq<char>, V)>)
    requires
        sorted_by_key(p),
    ensures
        as_map(p).dom().finite(),
        as_map(p).dom().len() == p.len(),
{
    let keys = pair_keys(p);
    assert(keys.no_duplicates()) by {
        assert forall|i: int, j: int| 0 <= i < keys.len() && 0 <= j < keys.len() && i != j implies keys[i] != keys[j] by {
            if keys[i] == keys[j] {
                sorted_positions_unique(p, i, j);
            }
        }
    }
    assert forall|k: Seq<char>| as_map(p).dom().contains(k) <==> keys.to_set().contains(k) by {
        if holds_key(p, k) {
            let i = position_of(p, k);
            assert(keys[i] == k);
            assert(keys.contains(k));
        }
        if keys.contains(k) {
            let i = choose|i: int| 0 <= i < keys.len() && keys[i] == k;
            assert(p[i].0 == k);
        }
    }
    assert(as_map(p).dom() =~= keys.to_set());
    keys.unique_seq_to_set();
}

/// `new` is `old` with `value` under `key`: written over the pair that had the
/// key, or put where the order of keys wants it.
pub open spec fn pairs_inserted<V>(
    old_pairs: Seq<(Seq<char>, V)>,
    key: Seq<char>,
    value: V,
    new_pairs: Seq<(Seq<char>, V)>,
) -> bool {
    if holds_key(old_pairs, key) {
        new_pairs == old_pairs.update(position_of(old_pairs, key), (key, value))
    } else {
        exists|i: int|
            0 <= i <= old_pairs.len() && new_pairs == #[trigger] old_pairs.insert(i, (key, value))
    }
}

proof fn update_keeps_map<V>(p: Seq<(Seq<char>, V)>, i: int, key: Seq<char>, value: V)
    requires
        sorted_by_key(p),
        0 <= i < p.len(),
        p[i].0 == key,
    ensures
        sorted_by_key(p.update(i, (key, value))),
        as_map(p.update(i, (key, value))) == as_map(p).insert(key, value),
        holds_key(p, key),
        position_of(p, key) == i,
{
    let q = p.update(i, (key, value));
    assert(forall|j: int| 0 <= j < p.len() ==> q[j].0 == p[j].0);
    as_map_at(p, i);
    as_map_at(q, i);
    assert forall|k: Seq<char>| #[trigger] as_map(q).contains_key(k) implies as_map(p).insert(key, value).contains_key(k)
        && as_map(q)[k] == as_map(p).insert(key, value)[k] by {
        let j = position_of(q, k);
        assert(p[j].0 == k);
        as_map_at(p, j);
        as_map_at(q, j);
    }
    assert forall|k: Seq<char>| #[trigger] as_map(p).insert(key, value).contains_key(k) implies as_map(q).contains_key(k) by {
        if k != key {
            let j = position_of(p, k);
            assert(q[j].0 == k);
        }
    }
    assert(as_map(q) =~= as_map(p).insert(key, value));
}

proof fn insert_keeps_map<V>(p: Seq<(Seq<char>, V)>, i: int, key: Seq<char>, value: V)
    requires
        sorted_by_key(p),
        0 <= i <= p.len(),
        forall|j: int| 0 <= j < i ==> text_less(#[trigger] p[j].0, key),
        forall|j: int| i <= j < p.len() ==> text_less(key, #[trigger] p[j].0),
    ensures
        sorted_by_key(p.insert(i, (key, value))),
        as_map(p.insert(i, (key, value))) == as_map(p).insert(key, value),
        !holds_key(p, key),
{
    let q = p.insert(i, (key, value));
    assert forall|a: int, b: int| 0 <= a < b < q.len() implies text_less(#[trigger] q[a].0, #[trigger] q[b].0) by {
        let pa = if a < i { a } else { a - 1 };
        let pb = if b < i { b } else { b - 1 };
        if a != i {
            assert(q[a] == p[pa]);
        }
        if b != i {
            assert(q[b] == p[pb]);
        }
    }
    if holds_key(p, key) {
        let j = position_of(p, key);
        if j < i {
            text_less_asymmetric(p[j].0, key);
        } else {
            text_less_asymmetric(key, p[j].0);
        }
    }
    assert(q[i] == (key, value));
    as_map_at(q, i);
    assert forall|k: Seq<char>| #[trigger] as_map(q).contains_key(k) implies as_map(p).insert(key, value).contains_key(k)
        && as_map(q)[k] == as_map(p).insert(key, value)[k] by {
        let j = position_of(q, k);
        as_map_at(q, j);
        if j < i {
            assert(q[j] == p[j]);
            as_map_at(p, j);
            text_less_asymmetric(p[j].0, key);
        } else if j > i {
            assert(q[j] == p[j - 1]);
            as_map_at(p, j - 1);
            text_less_asymmetric(key, p[j - 1].0);
        }
    }
    assert forall|k: Seq<char>| #[trigger] as_map(p).insert(key, value).contains_key(k) implies as_map(q).contains_key(k) by {
        if k != key {
            let j = position_of(p, k);
            if j < i {
                assert(q[j].0 == k);
            } else {
                assert(q[j + 1].0 == k);
            }
        }
    }
    assert(as_map(q) =~= as_map(p).insert(key, value));
}

proof fn remove_keeps_map<V>(p: Seq<(Seq<char>, V)>, i: int)
    requires
        sorted_by_key(p),
        0 <= i < p.len(),
    ensures
        sorted_by_key(p.remove(i)),
        as_map(p.remove(i)) == as_map(p).remove(p[i].0),
{
    let q = p.remove(i);
    assert forall|a: int, b: int| 0 <= a < b < q.len() implies text_less(#[trigger] q[a].0, #[trigger] q[b].0) by {
        let pa = if a < i { a } else { a + 1 };
        let pb = if b < i { b } else { b + 1 };
        assert(q[a] == p[pa]);
        assert(q[b] == p[pb]);
    }
    assert forall|k: Seq<char>| #[trigger] as_map(q).contains_key(k) implies as_map(p).remove(p[i].0).contains_key(k)
        && as_map(q)[k] == as_map(p).remove(p[i].0)[k] by {
        let j = position_of(q, k);
        let o = if j < i { j } else { j + 1 };
        assert(q[j] == p[o]);
        as_map_at(q, j);
        as_map_at(p, o);
        if k == p[i].0 {
            sorted_positions_unique(p, i, o);
        }
    }
    assert forall|k: Seq<char>| #[trigger] as_map(p).remove(p[i].0).contains_key(k) implies as_map(q).contains_key(k) by {
        let j = position_of(p, k);
        if j < i {
            assert(q[j].0 == k);
        } else {
            assert(q[j - 1].0 == k);
        }
    }
    assert(as_map(q) =~= as_map(p).remove(p[i].0));
}

/// A map with string keys in string order.
#[derive(Debug, PartialEq, Eq)]
pub struct KeyMap<V> {
    entries: Vec<(String, V)>,
}

impl<V> View for KeyMap<V> {
    type V = Map<Seq<char>, V>;

    open spec fn view(&self) -> Map<Seq<char>, V> {
        as_map(self.pairs())
    }
}

impl<V> KeyMap<V> {
    /// The keys with their values, in key order.
    pub closed spec fn pairs(&self) -> Seq<(Seq<char>, V)> {
        Seq::new(self.entries@.len(), |i: int| (self.entries@[i].0@, self.entries@[i].1))
    }

    #[verifier::type_invariant]
    spec fn well_formed(self) -> bool {
        sorted_by_key(self.pairs())
    }

    /// The empty map.
    pub fn new() -> (map: Self)
        ensures
            map@ == Map::<Seq<char>, V>::empty(),
            map.pairs() == Seq::<(Seq<char>, V)>::empty(),
    {
        let map = KeyMap { entries: Vec::new() };
        assert(map@ =~= Map::<Seq<char>, V>::empty());
        assert(map.pairs() =~= Seq::<(Seq<char>, V)>::empty());
        map
    }

    /// Number of keys.
    pub fn len(&self) -> (len: usize)
        ensures
            len == self.pairs().len(),
            sorted_by_key(self.pairs()),
    {
        proof {
            use_type_invariant(self);
        }
        self.entries.len()
    }

    /// Whether the map holds nothing.
    pub fn is_empty(&self) -> (empty: bool)
        ensures
            empty == (self.pairs().len() == 0),
    {
        self.entries.len() == 0
    }

    /// The key at a position of the key order.
    pub fn key_at(&self, i: usize) -> (key: &String)
        requires
            i < self.pairs().len(),
        ensures
            key@ == self.pairs()[i as int].0,
    {
        &self.entries[i].0
    }

    /// The value at a position of the key order.
    pub fn value_at(&self, i: usize) -> (value: &V)
        requires
            i < self.pairs().len(),
        ensures
            *value == self.pairs()[i as int].1,
    {
        &self.entries[i].1
    }

    /// The first position whose key is not below `key`.
    fn lower_bound(&self, key: &str) -> (index: usize)
        ensures
            index <= self.pairs().len(),
            forall|j: int| 0 <= j < index ==> text_less(#[trigger] self.pairs()[j].0, key@),
            forall|j: int|
                index <= j < self.pairs().len() ==> (#[trigger] self.pairs()[j].0 == key@ && j == index)
                    || text_less(key@, self.pairs()[j].0),
    {
        proof {
            use_type_invariant(self);
        }
        let mut low: usize = 0;
        let mut high: usize = self.entries.len();
        while low < high
            invariant
                sorted_by_key(self.pairs()),
                self.pairs().len() == self.entries@.len(),
                low <= high <= self.pairs().len(),
                forall|j: int| 0 <= j < low ==> text_less(#[trigger] self.pairs()[j].0, key@),
                forall|j: int| high <= j < self.pairs().len() ==> text_less(key@, #[trigger] self.pairs()[j].0),
            decreases high - low,
        {
            let middle: usize = low + (high - low) / 2;
            let ghost p = self.pairs();
            match text_order(&self.entries[middle].0, key) {
                TextOrder::Less => {
                    proof {
                        assert(p[middle as int].0 == self.entries@[middle as int].0@);
                        assert forall|j: int| 0 <= j < middle + 1 implies text_less(#[trigger] p[j].0, key@) by {
                            if j < middle {
                                crate::text::text_less_transitive(p[j].0, p[middle as int].0, key@);
                            }
                        }
                    }
                    low = middle + 1;
                },
                TextOrder::Greater => {
                    proof {
                        assert(p[middle as int].0 == self.entries@[middle as int].0@);
                        assert forall|j: int| middle <= j < p.len() implies text_less(key@, #[trigger] p[j].0) by {
                            if j > middle {
                                crate::text::text_less_transitive(key@, p[middle as int].0, p[j].0);
                            }
                        }
                    }
                    high = middle;
                },
                TextOrder::Equal => {
                    proof {
                        assert(p[middle as int].0 == self.entries@[middle as int].0@);
                    }
                    return middle;
                },
            }
        }
        low
    }

    /// The position of a key, where the map holds it.
    pub fn position(&self, key: &str) -> (index: Option<usize>)
        ensures
            index is Some <==> self@.contains_key(key@),
            index matches Some(i) ==> i < self.pairs().len() && self.pairs()[i as int].0 == key@
                && self.pairs()[i as int].1 == self@[key@],
    {
        let i: usize = self.lower_bound(key);
        if i < self.entries.len() && same_text(&self.entries[i].0, key) {
            proof {
                use_type_invariant(self);
                as_map_at(self.pairs(), i as int);
            }
            Some(i)
        } else {
            proof {
                if i < self.pairs().len() {
                    assert(self.pairs()[i as int].0 == self.entries@[i as int].0@);
                }
                if holds_key(self.pairs(), key@) {
                    let j = position_of(self.pairs(), key@);
                    if j < i {
                        text_less_asymmetric(self.pairs()[j].0, key@);
                    } else if j > i {
                        text_less_asymmetric(key@, self.pairs()[j].0);
                    }
                }
            }
            None
        }
    }

    /// The value under a key.
    pub fn get(&self, key: &str) -> (value: Option<&V>)
        ensures
            match value {
                Some(v) => self@.contains_key(key@) && *v == self@[key@],
                None => !self@.contains_key(key@),
            },
    {
        match self.position(key) {
            Some(i) => Some(&self.entries[i].1),
            None => None,
        }
    }

    /// Whether the map holds a key.
    pub fn contains_key(&self, key: &str) -> (found: bool)
        ensures
            found == self@.contains_key(key@),
    {
        self.position(key).is_some()
    }

    /// Puts a value under a key, over the one that was there.
    pub fn insert(&mut self, key: String, value: V)
        ensures
            final(self)@ == old(self)@.insert(key@, value),
            pairs_inserted(old(self).pairs(), key@, value, final(self).pairs()),
    {
        let i: usize = self.lower_bound(&key);
        let ghost p = self.pairs();
        let ghost k = key@;
        proof {
            use_type_invariant(&*self);
        }
        let mut entries: Vec<(String, V)> = Vec::new();
        std::mem::swap(&mut entries, &mut self.entries);
        assert(forall|j: int| 0 <= j < entries@.len() ==> p[j] == (entries@[j].0@, entries@[j].1));
        if i < entries.len() && same_text(&entries[i].0, &key) {
            entries.set(i, (key, value));
            proof {
                update_keeps_map(p, i as int, k, value);
            }
            let ghost q = Seq::new(entries@.len(), |j: int| (entries@[j].0@, entries@[j].1));
            assert(q =~= p.update(i as int, (k, value)));
            self.entries = entries;
            assert(self.pairs() =~= q);
        } else {
            assert(forall|j: int| i <= j < p.len() ==> text_less(k, #[trigger] p[j].0));
            entries.insert(i, (key, value));
            proof {
                insert_keeps_map(p, i as int, k, value);
            }
            let ghost q = Seq::new(entries@.len(), |j: int| (entries@[j].0@, entries@[j].1));
            assert(q =~= p.insert(i as int, (k, value)));
            self.entries = entries;
            assert(self.pairs() =~= q);
        }
    }

    /// Takes out the pair at a position of the key order.
    pub fn remove_at(&mut self, i: usize) -> (pair: (String, V))
        requires
            i < old(self).pairs().len(),
        ensures
            (pair.0@, pair.1) == old(self).pairs()[i as int],
            final(self).pairs() == old(self).pairs().remove(i as int),
            final(self)@ == old(self)@.remove(pair.0@),
    {
        proof {
            use_type_invariant(&*self);
        }
        let ghost p = self.pairs();
        let mut entries: Vec<(String, V)> = Vec::new();
        std::mem::swap(&mut entries, &mut self.entries);
        assert(forall|j: int| 0 <= j < entries@.len() ==> p[j] == (entries@[j].0@, entries@[j].1));
        let pair = entries.remove(i);
        proof {
            remove_keeps_map(p, i as int);
        }
        let ghost q = Seq::new(entries@.len(), |j: int| (entries@[j].0@, entries@[j].1));
        assert(q =~= p.remove(i as int));
        self.entries = entries;
        assert(self.pairs() =~= q);
        pair
    }
}

impl<V: Clone> Clone for KeyMap<V> {
    fn clone(&self) -> (map: Self)
        ensures
            map.pairs().len() == self.pairs().len(),
            forall|i: int| 0 <= i < self.pairs().len() ==> #[trigger] map.pairs()[i].0 == self.pairs()[i].0
                && cloned::<V>(self.pairs()[i].1, map.pairs()[i].1),
    {
        proof {
            use_type_invariant(self);
        }
        let mut entries: Vec<(String, V)> = Vec::new();
        let mut i: usize = 0;
        while i < self.entries.len()
            invariant
                i <= self.entries@.len(),
                entries@.len() == i,
                forall|j: int| 0 <= j < i ==> #[trigger] entries@[j].0@ == self.entries@[j].0@
                    && cloned::<V>(self.entries@[j].1, entries@[j].1),
            decreases self.entries.len() - i,
        {
            let key = self.entries[i].0.clone();
            let value = self.entries[i].1.clone();
            entries.push((key, value));
            i += 1;
        }
        let ghost q = Seq::new(entries@.len(), |j: int| (entries@[j].0@, entries@[j].1));
        proof {
            assert(forall|j: int| 0 <= j < q.len() ==> #[trigger] q[j].0 == self.pairs()[j].0);
        }
        KeyMap { entries }
    }
}

} // verus!
