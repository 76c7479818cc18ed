//! A map from strings to values that keeps its entries ordered by key, as a
//! `BTreeMap<String, V>` does: each key occurs once, and iterating the map
//! visits the keys in increasing order.

use vstd::prelude::*;

use crate::text::{chars_equal, chars_less, chars_of, copy_strings, views, lemma_seq_less_asymmetric,
    lemma_seq_less_irreflexive, lemma_seq_less_total, lemma_seq_less_transitive, seq_less};

verus! {

// ---------------------------------------------------------------------------
// Specifications over sequences of entries
// ---------------------------------------------------------------------------

/// The keys of a sequence of entries, in order.
pub open spec fn keys_of<X>(entries: Seq<(Seq<char>, X)>) -> Seq<Seq<char>> {
    entries.map_values(|e: (Seq<char>, X)| e.0)
}

/// The values of a sequence of entries, in order.
pub open spec fn values_of<X>(entries: Seq<(Seq<char>, X)>) -> Seq<X> {
    entries.map_values(|e: (Seq<char>, X)| e.1)
}

/// Keys in strictly increasing order (so also without repetition).
pub open spec fn keys_sorted(keys: Seq<Seq<char>>) -> bool {
    forall|i: int, j: int| 0 <= i < j < keys.len() ==> seq_less(#[trigger] keys[i], #[trigger] keys[j])
}

/// The index of the first entry at or after `from` whose key is `key`.
pub open spec fn key_index_from<X>(entries: Seq<(Seq<char>, X)>, key: Seq<char>, from: int) -> Option<int>
    decreases entries.len() - from,
{
    if from < 0 || from >= entries.len() {
        None
    } else if entries[from].0 == key {
        Some(from)
    } else {
        key_index_from(entries, key, from + 1)
    }
}

/// The index of the first entry whose key is `key`.
pub open spec fn key_index<X>(entries: Seq<(Seq<char>, X)>, key: Seq<char>) -> Option<int> {
    key_index_from(entries, key, 0)
}

/// The value stored under `key`, if any.
pub open spec fn lookup<X>(entries: Seq<(Seq<char>, X)>, key: Seq<char>) -> Option<X> {
    match key_index(entries, key) {
        Some(i) => Some(entries[i].1),
        None => None,
    }
}

/// The index of the first key at or after `from` that is not less than `key`.
pub open spec fn insertion_index_from(keys: Seq<Seq<char>>, key: Seq<char>, from: int) -> int
    decreases keys.len() - from,
{
    if from < 0 || from >= keys.len() {
        keys.len() as int
    } else if !seq_less(keys[from], key) {
        from
    } else {
        insertion_index_from(keys, key, from + 1)
    }
}

/// Where `key` goes among sorted `keys`: after every smaller key.
pub open spec fn insertion_index(keys: Seq<Seq<char>>, key: Seq<char>) -> int {
    insertion_index_from(keys, key, 0)
}

/// The entries after storing `value` under `key`: an existing entry keeps its
/// place and takes the new value, otherwise a new entry goes in key order.
pub open spec fn map_insert<X>(entries: Seq<(Seq<char>, X)>, key: Seq<char>, value: X) -> Seq<(Seq<char>, X)> {
    match key_index(entries, key) {
        Some(i) => entries.update(i, (key, value)),
        None => entries.insert(insertion_index(keys_of(entries), key), (key, value)),
    }
}

// ---------------------------------------------------------------------------
// Lemmas
// ---------------------------------------------------------------------------

/// What `key_index_from` finds.
pub proof fn lemma_key_index_from<X>(entries: Seq<(Seq<char>, X)>, key: Seq<char>, from: int)
    requires
        0 <= from,
    ensures
        match key_index_from(entries, key, from) {
            Some(i) => from <= i < entries.len() && entries[i].0 == key && forall|j: int|
                from <= j < i ==> entries[j].0 != key,
            None => forall|j: int| from <= j < entries.len() ==> entries[j].0 != key,
        },
    decreases entries.len() - from,
{
    if from < entries.len() && entries[from].0 != key {
        lemma_key_index_from(entries, key, from + 1);
    }
}

/// What `key_index` finds.
pub proof fn lemma_key_index<X>(entries: Seq<(Seq<char>, X)>, key: Seq<char>)
    ensures
        match key_index(entries, key) {
            Some(i) => 0 <= i < entries.len() && entries[i].0 == key && forall|j: int|
                0 <= j < i ==> entries[j].0 != key,
            None => forall|j: int| 0 <= j < entries.len() ==> entries[j].0 != key,
        },
{
    lemma_key_index_from(entries, key, 0);
}

/// The index of the only entry with a given key, in sorted entries.
pub proof fn lemma_key_index_unique<X>(entries: Seq<(Seq<char>, X)>, key: Seq<char>, i: int)
    requires
        keys_sorted(keys_of(entries)),
        0 <= i < entries.len(),
        entries[i].0 == key,
    ensures
        key_index(entries, key) == Some(i),
{
    lemma_key_index(entries, key);
    match key_index(entries, key) {
        Some(j) => {
            if j < i {
                assert(seq_less(keys_of(entries)[j], keys_of(entries)[i]));
                lemma_seq_less_irreflexive(key);
            }
        },
        None => {},
    }
}

/// What `insertion_index_from` finds.
pub proof fn lemma_insertion_index_from(keys: Seq<Seq<char>>, key: Seq<char>, from: int)
    requires
        0 <= from <= keys.len(),
    ensures
        from <= insertion_index_from(keys, key, from) <= keys.len(),
        forall|j: int| from <= j < insertion_index_from(keys, key, from) ==> seq_less(keys[j], key),
        insertion_index_from(keys, key, from) < keys.len() ==> !seq_less(
            keys[insertion_index_from(keys, key, from)],
            key,
        ),
    decreases keys.len() - from,
{
    if from < keys.len() && seq_less(keys[from], key) {
        lemma_insertion_index_from(keys, key, from + 1);
    }
}

/// Inserting keeps keys sorted; inserting a key greater than every key
/// appends an entry at the end.
pub proof fn lemma_map_insert<X>(entries: Seq<(Seq<char>, X)>, key: Seq<char>, value: X)
    requires
        keys_sorted(keys_of(entries)),
    ensures
        keys_sorted(keys_of(map_insert(entries, key, value))),
        lookup(map_insert(entries, key, value), key) == Some(value),
        (forall|j: int| 0 <= j < entries.len() ==> seq_less(#[trigger] entries[j].0, key))
            ==> map_insert(entries, key, value) == entries.push((key, value)),
{
    let keys = keys_of(entries);
    let result = map_insert(entries, key, value);
    lemma_key_index(entries, key);
    match key_index(entries, key) {
        Some(i) => {
            assert(keys_of(result) =~= keys);
            lemma_key_index_unique(result, key, i);
            if forall|j: int| 0 <= j < entries.len() ==> seq_less(#[trigger] entries[j].0, key) {
                assert(seq_less(entries[i].0, key));
                lemma_seq_less_irreflexive(key);
            }
        },
        None => {
            let p = insertion_index(keys, key);
            lemma_insertion_index_from(keys, key, 0);
            let new_keys = keys_of(result);
            assert(new_keys =~= keys.insert(p, key));
            if p < keys.len() {
                lemma_seq_less_total(keys[p], key);
            }
            assert forall|i: int, j: int| 0 <= i < j < new_keys.len() implies seq_less(
                #[trigger] new_keys[i],
                #[trigger] new_keys[j],
            ) by {
                if j < p {
                } else if j == p {
                } else if i > p {
                    assert(seq_less(keys[i - 1], keys[j - 1]));
                } else if i == p {
                    if j - 1 > p {
                        assert(seq_less(keys[p], keys[j - 1]));
                        lemma_seq_less_transitive(key, keys[p], keys[j - 1]);
                    }
                } else {
                    assert(seq_less(keys[i], keys[j - 1]));
                }
            }
            lemma_key_index_unique(result, key, p);
            if forall|j: int| 0 <= j < entries.len() ==> seq_less(#[trigger] entries[j].0, key) {
                if p < keys.len() {
                    assert(seq_less(entries[p].0, key));
                }
                assert(result =~= entries.push((key, value)));
            }
        },
    }
}

/// `key_index_from` depends only on the keys.
pub proof fn lemma_key_index_from_keys<X>(a: Seq<(Seq<char>, X)>, b: Seq<(Seq<char>, X)>, key: Seq<char>, from: int)
    requires
        keys_of(a) == keys_of(b),
    ensures
        key_index_from(a, key, from) == key_index_from(b, key, from),
    decreases a.len() - from,
{
    assert(a.len() == keys_of(a).len() && b.len() == keys_of(b).len());
    if 0 <= from < a.len() {
        assert(a[from].0 == keys_of(a)[from]);
        assert(b[from].0 == keys_of(b)[from]);
        lemma_key_index_from_keys(a, b, key, from + 1);
    }
}

/// Appending an entry: an earlier entry for the key still comes first.
pub proof fn lemma_key_index_from_push<X>(entries: Seq<(Seq<char>, X)>, entry: (Seq<char>, X), key: Seq<char>, from: int)
    requires
        0 <= from <= entries.len(),
    ensures
        key_index_from(entries.push(entry), key, from) == match key_index_from(entries, key, from) {
            Some(i) => Some(i),
            None => if entry.0 == key {
                Some(entries.len() as int)
            } else {
                None
            },
        },
    decreases entries.len() - from,
{
    if from < entries.len() {
        assert(entries.push(entry)[from] == entries[from]);
        lemma_key_index_from_push(entries, entry, key, from + 1);
    } else {
        assert(entries.push(entry)[from] == entry);
        if from + 1 <= entries.push(entry).len() {
            assert(key_index_from(entries.push(entry), key, from + 1) is None);
        }
    }
}

/// Looking up in entries with one more entry at the end.
pub proof fn lemma_lookup_push<X>(entries: Seq<(Seq<char>, X)>, entry: (Seq<char>, X), key: Seq<char>)
    ensures
        lookup(entries.push(entry), key) == match lookup(entries, key) {
            Some(v) => Some(v),
            None => if entry.0 == key {
                Some(entry.1)
            } else {
                None
            },
        },
{
    lemma_key_index_from_push(entries, entry, key, 0);
    lemma_key_index(entries, key);
}

/// Replacing the value of the first entry for `key` changes what `key` gives
/// and nothing else.
pub proof fn lemma_lookup_update<X>(entries: Seq<(Seq<char>, X)>, key: Seq<char>, value: X, other: Seq<char>)
    requires
        key_index(entries, key) is Some,
    ensures
        ({
            let j = key_index(entries, key)->Some_0;
            lookup(entries.update(j, (key, value)), other) == if other == key {
                Some(value)
            } else {
                lookup(entries, other)
            }
        }),
{
    let j = key_index(entries, key)->Some_0;
    let updated = entries.update(j, (key, value));
    lemma_key_index(entries, key);
    assert(keys_of(updated) =~= keys_of(entries));
    lemma_key_index_from_keys(updated, entries, other, 0);
    lemma_key_index(entries, other);
    if other != key {
        match key_index(entries, other) {
            Some(i) => {
                assert(i != j);
            },
            None => {},
        }
    } else {
    }
}

/// Storing a value under one key leaves what every other key gives as it was.
pub proof fn lemma_map_insert_keeps_others<X>(entries: Seq<(Seq<char>, X)>, key: Seq<char>, value: X, other: Seq<char>)
    requires
        keys_sorted(keys_of(entries)),
        other != key,
    ensures
        lookup(map_insert(entries, key, value), other) == lookup(entries, other),
{
    let result = map_insert(entries, key, value);
    lemma_map_insert(entries, key, value);
    lemma_key_index(entries, key);
    lemma_key_index(entries, other);
    lemma_key_index(result, other);
    let p = insertion_index(keys_of(entries), key);
    lemma_insertion_index_from(keys_of(entries), key, 0);
    match key_index(entries, other) {
        Some(i) => {
            let shifted = match key_index(entries, key) {
                Some(_) => i,
                None => if i < p {
                    i
                } else {
                    i + 1
                },
            };
            assert(result[shifted] == entries[i]);
            lemma_key_index_unique(result, other, shifted);
        },
        None => {
            match key_index(result, other) {
                Some(r) => {
                    match key_index(entries, key) {
                        Some(k) => {
                            if r != k {
                                assert(result[r] == entries[r]);
                            }
                        },
                        None => {
                            if r < p {
                                assert(result[r] == entries[r]);
                            } else if r > p {
                                assert(result[r] == entries[r - 1]);
                            }
                        },
                    }
                },
                None => {},
            }
        },
    }
}

// ---------------------------------------------------------------------------
// The map
// ---------------------------------------------------------------------------

/// A map from strings to values, with its entries kept in increasing key order.
#[derive(Debug, PartialEq, Eq)]
pub struct SortedMap<V> {
    entries: Vec<(String, V)>,
}

impl<V> SortedMap<V> {
    /// The keys, in increasing order.
    pub closed spec fn keys(self) -> Seq<Seq<char>> {
        self.entries@.map_values(|e: (String, V)| e.0@)
    }

    /// The stored values, in key order.
    pub closed spec fn values(self) -> Seq<V> {
        self.entries@.map_values(|e: (String, V)| e.1)
    }

    /// The keys of a map are always in increasing order.
    #[verifier::type_invariant]
    spec fn keys_in_order(self) -> bool {
        keys_sorted(self.keys())
    }

    /// Creates an empty map.
    pub fn new() -> (map: Self)
        ensures
            map.keys() == Seq::<Seq<char>>::empty(),
            map.values() == Seq::<V>::empty(),
            map.entries_of() == Seq::<(Seq<char>, V)>::empty(),
    {
        let map = SortedMap { entries: Vec::new() };
        assert(map.entries_of() =~= Seq::<(Seq<char>, V)>::empty());
        assert(map.keys() =~= Seq::<Seq<char>>::empty());
        assert(map.values() =~= Seq::<V>::empty());
        map
    }

    /// The number of entries.
    pub fn len(&self) -> (n: usize)
        ensures
            n == self.keys().len(),
            n == self.values().len(),
            keys_sorted(self.keys()),
    {
        proof {
            use_type_invariant(self);
        }
        self.entries.len()
    }

    /// Whether the map has no entries.
    pub fn is_empty(&self) -> (empty: bool)
        ensures
            empty == (self.keys().len() == 0),
    {
        self.entries.len() == 0
    }

    /// The key of the entry at position `i` in key order.
    pub fn key_at(&self, i: usize) -> (key: &String)
        requires
            i < self.keys().len(),
        ensures
            key@ == self.keys()[i as int],
    {
        &self.entries[i].0
    }

    /// The value of the entry at position `i` in key order.
    pub fn value_at(&self, i: usize) -> (value: &V)
        requires
            i < self.values().len(),
        ensures
            *value == self.values()[i as int],
    {
        &self.entries[i].1
    }

    /// The position of the entry whose key has the characters `key`.
    fn position_of(&self, key: &[char]) -> (index: Option<usize>)
        ensures
            match index {
                Some(i) => i < self.keys().len() && self.keys()[i as int] == key@ && forall|j: int|
                    0 <= j < i ==> self.keys()[j] != key@,
                None => forall|j: int| 0 <= j < self.keys().len() ==> self.keys()[j] != key@,
            },
            match key_index(self.entries_of(), key@) {
                Some(k) => index == Some(k as usize),
                None => index is None,
            },
    {
        let mut i: usize = 0;
        while i < self.entries.len()
            invariant
                i <= self.entries@.len(),
                forall|j: int| 0 <= j < i ==> self.keys()[j] != key@,
            decreases self.entries@.len() - i,
        {
            let candidate = chars_of(self.entries[i].0.as_str());
            if chars_equal(candidate.as_slice(), key) {
                proof {
                    self.lemma_entries_of();
                    lemma_key_index(self.entries_of(), key@);
                    assert(self.entries_of()[i as int].0 == self.keys()[i as int]);
                    if let Some(k) = key_index(self.entries_of(), key@) {
                        assert(self.entries_of()[k].0 == self.keys()[k]);
                    }
                }
                return Some(i);
            }
            i = i + 1;
        }
        proof {
            self.lemma_entries_of();
            lemma_key_index(self.entries_of(), key@);
            if let Some(k) = key_index(self.entries_of(), key@) {
                assert(self.entries_of()[k].0 == self.keys()[k]);
            }
        }
        None
    }

    /// The value stored under `key`, if any.
    pub fn get(&self, key: &str) -> (value: Option<&V>)
        ensures
            match lookup(self.entries_of(), key@) {
                Some(v) => value is Some && *value->0 == v,
                None => value is None,
            },
    {
        let key_chars = chars_of(key);
        proof {
            self.lemma_entries_of();
            lemma_key_index(self.entries_of(), key@);
        }
        match self.position_of(key_chars.as_slice()) {
            Some(i) => {
                assert(self.entries_of()[i as int].1 == self.entries@[i as int].1);
                Some(&self.entries[i].1)
            },
            None => None,
        }
    }

    /// Whether some entry has the key `key`.
    pub fn contains_key(&self, key: &str) -> (found: bool)
        ensures
            found == self.keys().contains(key@),
    {
        let key_chars = chars_of(key);
        let found = self.position_of(key_chars.as_slice()).is_some();
        proof {
            if !found {
                assert(!self.keys().contains(key@));
            }
        }
        found
    }

    /// Stores `value` under `key`: an existing entry for `key` keeps its place
    /// and takes the new value, otherwise a new entry is added in key order.
    pub fn insert(&mut self, key: String, value: V)
        ensures
            final(self).entries_of() == map_insert(old(self).entries_of(), key@, value),
    {
        proof {
            use_type_invariant(&*self);
        }
        let key_chars = chars_of(key.as_str());
        let mut entries: Vec<(String, V)> = Vec::new();
        std::mem::swap(&mut entries, &mut self.entries);
        let ghost old_entries = old(self).entries_of();
        assert(entries@.map_values(|e: (String, V)| (e.0@, e.1)) == old_entries);
        let ghost keys = keys_of(old_entries);
        assert(keys =~= old(self).keys());
        let mut i: usize = 0;
        let mut found = false;
        let mut stop = false;
        while !stop && i < entries.len()
            invariant
                i <= entries@.len(),
                old_entries == entries@.map_values(|e: (String, V)| (e.0@, e.1)),
                keys == keys_of(old_entries),
                keys.len() == entries@.len(),
                key_chars@ == key@,
                forall|j: int| 0 <= j < i ==> keys[j] != key@,
                forall|j: int| 0 <= j < i ==> seq_less(keys[j], key@),
                !stop ==> !found,
                stop ==> i < entries@.len(),
                stop && found ==> keys[i as int] == key@,
                stop && !found ==> keys[i as int] != key@ && !seq_less(keys[i as int], key@),
            decreases entries@.len() - i + (if stop { 0int } else { 1int }),
        {
            let candidate = chars_of(entries[i].0.as_str());
            assert(candidate@ == keys[i as int]);
            if chars_equal(candidate.as_slice(), key_chars.as_slice()) {
                found = true;
                stop = true;
            } else if !chars_less(candidate.as_slice(), key_chars.as_slice()) {
                stop = true;
            } else {
                i = i + 1;
            }
        }
        let slot = i;
        proof {
            lemma_key_index(old_entries, key@);
            lemma_insertion_index_from(keys, key@, 0);
        }
        if found {
            proof {
                lemma_key_index_unique(old_entries, key@, slot as int);
            }
            entries.remove(slot);
            entries.insert(slot, (key, value));
            assert(entries@.map_values(|e: (String, V)| (e.0@, e.1)) =~= old_entries.update(
                slot as int,
                (key_chars@, value),
            ));
        } else {
            proof {
                if stop {
                    lemma_seq_less_total(keys[slot as int], key@);
                    assert forall|j: int| slot < j < keys.len() implies keys[j] != key@ by {
                        assert(seq_less(keys[slot as int], keys[j]));
                        if keys[j] == key@ {
                            lemma_seq_less_asymmetric(key@, keys[slot as int]);
                        }
                    }
                }
                if let Some(k) = key_index(old_entries, key@) {
                    assert(keys[k] == old_entries[k].0);
                }
                assert(key_index(old_entries, key@) is None);
                let p = insertion_index(keys, key@);
                if p < slot {
                    assert(seq_less(keys[p], key@));
                }
                if slot < p {
                    assert(seq_less(keys[slot as int], key@));
                }
            }
            entries.insert(slot, (key, value));
            assert(entries@.map_values(|e: (String, V)| (e.0@, e.1)) =~= old_entries.insert(
                slot as int,
                (key_chars@, value),
            ));
        }
        proof {
            lemma_map_insert(old_entries, key@, value);
            assert(keys_of(map_insert(old_entries, key@, value)) =~= entries@.map_values(
                |e: (String, V)| e.0@,
            ));
        }
        self.entries = entries;
    }

    /// The entries as (key, value) pairs, in key order.
    pub closed spec fn entries_of(self) -> Seq<(Seq<char>, V)> {
        self.entries@.map_values(|e: (String, V)| (e.0@, e.1))
    }

    /// The entries are the keys paired with the values.
    pub proof fn lemma_entries_of(&self)
        ensures
            self.entries_of().len() == self.keys().len(),
            self.keys().len() == self.values().len(),
            keys_of(self.entries_of()) == self.keys(),
            values_of(self.entries_of()) == self.values(),
    {
        assert(keys_of(self.entries_of()) =~= self.keys());
        assert(values_of(self.entries_of()) =~= self.values());
    }

    /// A copy of the keys, in increasing order.
    pub fn key_list(&self) -> (keys: Vec<String>)
        ensures
            keys@.map_values(|k: String| k@) == self.keys(),
    {
        let mut keys: Vec<String> = Vec::new();
        let mut i: usize = 0;
        while i < self.entries.len()
            invariant
                i <= self.entries@.len(),
                keys@.len() == i,
                forall|j: int| 0 <= j < i ==> #[trigger] keys@[j]@ == self.keys()[j],
            decreases self.entries@.len() - i,
        {
            keys.push(self.entries[i].0.clone());
            i = i + 1;
        }
        assert(keys@.map_values(|k: String| k@) =~= self.keys());
        keys
    }
}


impl<V> SortedMap<V> {
    /// The value stored under the key with characters `key`, if any.
    pub fn get_by_chars(&self, key: &[char]) -> (value: Option<&V>)
        ensures
            match lookup(self.entries_of(), key@) {
                Some(v) => value is Some && *value->0 == v,
                None => value is None,
            },
    {
        proof {
            self.lemma_entries_of();
            lemma_key_index(self.entries_of(), key@);
        }
        match self.position_of(key) {
            Some(i) => {
                assert(self.entries_of()[i as int].1 == self.entries@[i as int].1);
                Some(&self.entries[i].1)
            },
            None => None,
        }
    }
}

/// The entries of a map of strings, by their text.
pub open spec fn text_entries(map: SortedMap<String>) -> Seq<(Seq<char>, Seq<char>)> {
    map.entries_of().map_values(|e: (Seq<char>, String)| (e.0, e.1@))
}

/// The entries of a map of string lists, by their text.
pub open spec fn text_list_entries(map: SortedMap<Vec<String>>) -> Seq<(Seq<char>, Seq<Seq<char>>)> {
    map.entries_of().map_values(|e: (Seq<char>, Vec<String>)| (e.0, views(e.1@)))
}

/// Looking a key up by text gives the text of the value stored under it.
pub proof fn lemma_lookup_text<X, Y>(entries: Seq<(Seq<char>, X)>, f: spec_fn(X) -> Y, key: Seq<char>)
    ensures
        lookup(entries.map_values(|e: (Seq<char>, X)| (e.0, f(e.1))), key) == match lookup(entries, key) {
            Some(v) => Some(f(v)),
            None => None,
        },
{
    let mapped = entries.map_values(|e: (Seq<char>, X)| (e.0, f(e.1)));
    lemma_key_index(entries, key);
    lemma_key_index(mapped, key);
    match key_index(entries, key) {
        Some(i) => {
            assert(mapped[i].0 == entries[i].0);
            match key_index(mapped, key) {
                Some(j) => {
                    assert(mapped[j].0 == entries[j].0);
                },
                None => {},
            }
        },
        None => {
            match key_index(mapped, key) {
                Some(j) => {
                    assert(mapped[j].0 == entries[j].0);
                },
                None => {},
            }
        },
    }
}

/// Looking a key up in the text of a map of strings gives the text of the
/// value stored under it.
pub proof fn lemma_text_lookup(map: SortedMap<String>, key: Seq<char>)
    ensures
        lookup(text_entries(map), key) == match lookup(map.entries_of(), key) {
            Some(v) => Some(v@),
            None => None::<Seq<char>>,
        },
{
    let f = |s: String| s@;
    lemma_lookup_text(map.entries_of(), f, key);
    assert(text_entries(map) =~= map.entries_of().map_values(|e: (Seq<char>, String)| (e.0, f(e.1))));
}

impl SortedMap<String> {
    /// A copy of the map.
    pub fn duplicate(&self) -> (copy: Self)
        ensures
            copy.entries_of() == self.entries_of(),
    {
        proof {
            use_type_invariant(self);
        }
        let mut entries: Vec<(String, String)> = Vec::new();
        let mut i: usize = 0;
        while i < self.entries.len()
            invariant
                i <= self.entries@.len(),
                entries@.len() == i,
                forall|j: int| 0 <= j < i ==> #[trigger] entries@[j] == self.entries@[j],
            decreases self.entries@.len() - i,
        {
            let key = self.entries[i].0.clone();
            let value = self.entries[i].1.clone();
            entries.push((key, value));
            i = i + 1;
        }
        assert(entries@ =~= self.entries@);
        SortedMap { entries }
    }
}

impl SortedMap<Vec<String>> {
    /// A copy of the map.
    pub fn duplicate(&self) -> (copy: Self)
        ensures
            text_list_entries(copy) == text_list_entries(*self),
    {
        proof {
            use_type_invariant(self);
        }
        let mut entries: Vec<(String, Vec<String>)> = Vec::new();
        let mut i: usize = 0;
        while i < self.entries.len()
            invariant
                i <= self.entries@.len(),
                entries@.len() == i,
                forall|j: int| 0 <= j < i ==> #[trigger] entries@[j].0 == self.entries@[j].0,
                forall|j: int| 0 <= j < i ==> #[trigger] entries@[j].1@ == self.entries@[j].1@,
            decreases self.entries@.len() - i,
        {
            let key = self.entries[i].0.clone();
            let value = copy_strings(&self.entries[i].1);
            entries.push((key, value));
            i = i + 1;
        }
        assert(entries@.map_values(|e: (String, Vec<String>)| e.0@) =~= self.keys());
        let copy = SortedMap { entries };
        assert(text_list_entries(copy) =~= text_list_entries(*self));
        copy
    }
}

} // verus!
