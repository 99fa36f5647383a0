//! A table keyed by text that keeps its entries in the order in which their keys first
//! came.
//!
//! It stands where a hash map would: a key occurs once, and a second insertion under a key
//! replaces what the first one stored. Unlike a hash map it has an order, so that "the
//! first entry that matches" means the same on every run.

use vstd::prelude::*;
use crate::text::same_text;

verus! {

/// Whether some entry of `entries` has the key `key`.
pub open spec fn has_key<T>(entries: Seq<(Seq<char>, T)>, key: Seq<char>) -> bool {
    exists|i: int| 0 <= i < entries.len() && (#[trigger] entries[i]).0 == key
}

/// The index of an entry with the key `key`, where there is one.
pub open spec fn key_index<T>(entries: Seq<(Seq<char>, T)>, key: Seq<char>) -> int {
    choose|i: int| 0 <= i < entries.len() && (#[trigger] entries[i]).0 == key
}

/// Whether no key occurs twice.
pub open spec fn distinct_keys<T>(entries: Seq<(Seq<char>, T)>) -> bool {
    forall|i: int, j: int|
        0 <= i < entries.len() && 0 <= j < entries.len() && i != j ==> (#[trigger] entries[i]).0
            != (#[trigger] entries[j]).0
}

/// The value stored under `key`.
pub open spec fn lookup<T>(entries: Seq<(Seq<char>, T)>, key: Seq<char>) -> Option<T> {
    if has_key(entries, key) {
        Some(entries[key_index(entries, key)].1)
    } else {
        None
    }
}

/// `entries` after `value` is stored under `key`: in the place of the entry that had the
/// key, or at the end where none had it.
pub open spec fn put<T>(entries: Seq<(Seq<char>, T)>, key: Seq<char>, value: T) -> Seq<
    (Seq<char>, T),
> {
    if has_key(entries, key) {
        entries.update(key_index(entries, key), (key, value))
    } else {
        entries.push((key, value))
    }
}

/// The keys of `entries`, in order.
pub open spec fn keys_of<T>(entries: Seq<(Seq<char>, T)>) -> Seq<Seq<char>> {
    entries.map_values(|entry: (Seq<char>, T)| entry.0)
}

/// The mapping that `entries` stand for.
pub open spec fn mapping<T>(entries: Seq<(Seq<char>, T)>) -> Map<Seq<char>, T> {
    Map::new(
        |key: Seq<char>| has_key(entries, key),
        |key: Seq<char>| entries[key_index(entries, key)].1,
    )
}

/// Where every key is single, an entry is the one found under its key.
pub proof fn lemma_entry_is_found<T>(entries: Seq<(Seq<char>, T)>, i: int)
    requires
        distinct_keys(entries),
        0 <= i < entries.len(),
    ensures
        has_key(entries, entries[i].0),
        key_index(entries, entries[i].0) == i,
        lookup(entries, entries[i].0) == Some(entries[i].1),
        mapping(entries).contains_key(entries[i].0),
        mapping(entries)[entries[i].0] == entries[i].1,
{
    assert(has_key(entries, entries[i].0));
    let j = key_index(entries, entries[i].0);
    assert(entries[j].0 == entries[i].0);
}

/// The keys after storing under `key` are the keys before, and `key`.
pub proof fn lemma_put_keys<T>(entries: Seq<(Seq<char>, T)>, key: Seq<char>, value: T)
    ensures
        has_key(put(entries, key, value), key),
        forall|other: Seq<char>|
            has_key(put(entries, key, value), other) <==> has_key(entries, other) || other == key,
{
    let after = put(entries, key, value);
    let at = if has_key(entries, key) {
        key_index(entries, key)
    } else {
        entries.len() as int
    };
    assert(after[at].0 == key);
    assert forall|other: Seq<char>| has_key(after, other) <==> has_key(entries, other) || other
        == key by {
        if has_key(after, other) && other != key {
            let j = key_index(after, other);
            assert(entries[j].0 == other);
        }
        if has_key(entries, other) {
            let i = key_index(entries, other);
            assert(after[i].0 == other);
        }
    }
}

/// The keys listed are the keys held, and each is listed once where each is held once.
pub proof fn lemma_keys_of<T>(entries: Seq<(Seq<char>, T)>)
    ensures
        forall|key: Seq<char>| keys_of(entries).contains(key) <==> has_key(entries, key),
        distinct_keys(entries) ==> keys_of(entries).no_duplicates(),
{
    let keys = keys_of(entries);
    assert forall|key: Seq<char>| keys.contains(key) <==> has_key(entries, key) by {
        if keys.contains(key) {
            let i = choose|i: int| 0 <= i < keys.len() && keys[i] == key;
            assert(entries[i].0 == key);
        }
        if has_key(entries, key) {
            let i = key_index(entries, key);
            assert(keys[i] == key);
        }
    }
    if distinct_keys(entries) {
        assert forall|i: int, j: int|
            0 <= i < keys.len() && 0 <= j < keys.len() && i != j implies keys[i] != keys[j] by {
            assert(entries[i].0 != entries[j].0);
        }
    }
}

/// Storing under a key keeps every key single.
pub proof fn lemma_put_keeps_keys_distinct<T>(
    entries: Seq<(Seq<char>, T)>,
    key: Seq<char>,
    value: T,
)
    requires
        distinct_keys(entries),
    ensures
        distinct_keys(put(entries, key, value)),
{
    let after = put(entries, key, value);
    if has_key(entries, key) {
        let at = key_index(entries, key);
        assert forall|i: int, j: int|
            0 <= i < after.len() && 0 <= j < after.len() && i != j implies (#[trigger] after[i]).0
            != (#[trigger] after[j]).0 by {
            assert(entries[i].0 != entries[j].0);
            assert(i != at ==> entries[i].0 != entries[at].0);
            assert(j != at ==> entries[j].0 != entries[at].0);
        }
    } else {
        assert forall|i: int, j: int|
            0 <= i < after.len() && 0 <= j < after.len() && i != j implies (#[trigger] after[i]).0
            != (#[trigger] after[j]).0 by {
            if i < entries.len() && j < entries.len() {
                assert(entries[i].0 != entries[j].0);
            } else if i < entries.len() {
                assert(entries[i].0 != key);
            } else {
                assert(entries[j].0 != key);
            }
        }
    }
}

/// A table is the mapping of a hash map: what is stored under a key is found under it,
/// and replaces what was stored under it before; every other key keeps its value.
pub proof fn lemma_put_is_map_insert<T>(entries: Seq<(Seq<char>, T)>, key: Seq<char>, value: T)
    requires
        distinct_keys(entries),
    ensures
        mapping(put(entries, key, value)) == mapping(entries).insert(key, value),
        lookup(put(entries, key, value), key) == Some(value),
        forall|other: Seq<char>|
            other != key ==> lookup(put(entries, key, value), other) == lookup(entries, other),
{
    let after = put(entries, key, value);
    lemma_put_keeps_keys_distinct(entries, key, value);
    let at = if has_key(entries, key) {
        key_index(entries, key)
    } else {
        entries.len() as int
    };
    assert(after[at] == (key, value));
    assert(has_key(after, key));
    assert forall|other: Seq<char>| other != key implies has_key(after, other) == has_key(
        entries,
        other,
    ) && (has_key(entries, other) ==> after[key_index(after, other)].1 == entries[key_index(
        entries,
        other,
    )].1) by {
        if has_key(entries, other) {
            let i = key_index(entries, other);
            assert(after[i] == entries[i]);
            assert(has_key(after, other));
            let j = key_index(after, other);
            assert(after[j].0 == after[i].0);
        }
        if has_key(after, other) {
            let j = key_index(after, other);
            assert(j != at);
            assert(entries[j] == after[j]);
            assert(has_key(entries, other));
        }
    }
    assert(mapping(after) =~= mapping(entries).insert(key, value)) by {
        let j = key_index(after, key);
        assert(after[j].0 == after[at].0);
    }
    let j = key_index(after, key);
    assert(after[j].0 == after[at].0);
}

/// One entry of a table.
struct Entry<V> {
    key: String,
    value: V,
}

/// A table from text to values of `V`, in the order in which the keys first came.
pub struct Table<V: View> {
    entries: Vec<Entry<V>>,
}

impl<V: View> View for Table<V> {
    type V = Seq<(Seq<char>, V::V)>;

    closed spec fn view(&self) -> Seq<(Seq<char>, V::V)> {
        self.entries@.map_values(|entry: Entry<V>| (entry.key@, entry.value@))
    }
}

impl<V: View> Table<V> {
    #[verifier::type_invariant]
    spec fn keys_are_single(self) -> bool {
        distinct_keys(self@)
    }

    /// A table without entries.
    pub fn new() -> (table: Table<V>)
        ensures
            table@ == Seq::<(Seq<char>, V::V)>::empty(),
    {
        let table = Table { entries: Vec::new() };
        assert(table@ =~= Seq::<(Seq<char>, V::V)>::empty());
        table
    }

    /// The number of entries.
    pub fn len(&self) -> (n: usize)
        ensures
            n == self@.len(),
            distinct_keys(self@),
    {
        proof {
            use_type_invariant(self);
        }
        self.entries.len()
    }

    /// The place of the entry with the key `key`.
    pub fn find(&self, key: &str) -> (place: Option<usize>)
        ensures
            distinct_keys(self@),
            match place {
                Some(i) => has_key(self@, key@) && i == key_index(self@, key@) && i < self@.len(),
                None => !has_key(self@, key@),
            },
    {
        proof {
            use_type_invariant(self);
        }
        let mut i: usize = 0;
        while i < self.entries.len()
            invariant
                i <= self.entries.len(),
                self@.len() == self.entries.len(),
                distinct_keys(self@),
                forall|k: int| 0 <= k < i ==> (#[trigger] self@[k]).0 != key@,
            decreases self.entries.len() - i,
        {
            assert(self@[i as int].0 == self.entries@[i as int].key@);
            if same_text(self.entries[i].key.as_str(), key) {
                assert(has_key(self@, key@));
                return Some(i);
            }
            i = i + 1;
        }
        None
    }

    /// Stores `value` under `key`. An entry that has the key keeps its place and gets the
    /// new value; a new key goes to the end.
    pub fn insert(&mut self, key: String, value: V)
        ensures
            final(self)@ == put(old(self)@, key@, value@),
            distinct_keys(final(self)@),
    {
        proof {
            use_type_invariant(&*self);
            lemma_put_keeps_keys_distinct(self@, key@, value@);
        }
        let ghost before = self@;
        let place = self.find(key.as_str());
        let mut entries: Vec<Entry<V>> = Vec::new();
        assert(entries@.map_values(|entry: Entry<V>| (entry.key@, entry.value@))
            =~= Seq::<(Seq<char>, V::V)>::empty());
        core::mem::swap(&mut entries, &mut self.entries);
        match place {
            Some(i) => {
                entries.set(i, Entry { key, value });
            },
            None => {
                entries.push(Entry { key, value });
            },
        }
        assert(entries@.map_values(|entry: Entry<V>| (entry.key@, entry.value@)) =~= put(
            before,
            key@,
            value@,
        ));
        self.entries = entries;
    }

    /// The value stored under `key`.
    pub fn get(&self, key: &str) -> (found: Option<&V>)
        ensures
            match found {
                Some(value) => lookup(self@, key@) == Some(value@),
                None => lookup(self@, key@) is None,
            },
    {
        match self.find(key) {
            Some(i) => Some(&self.entries[i].value),
            None => None,
        }
    }

    /// The key of entry `index`, or nothing past the end.
    pub fn key(&self, index: usize) -> (found: Option<&String>)
        ensures
            match found {
                Some(key) => index < self@.len() && key@ == self@[index as int].0,
                None => index >= self@.len(),
            },
    {
        if index < self.entries.len() {
            Some(&self.entries[index].key)
        } else {
            None
        }
    }

    /// The value of entry `index`, or nothing past the end.
    pub fn value(&self, index: usize) -> (found: Option<&V>)
        ensures
            match found {
                Some(value) => index < self@.len() && value@ == self@[index as int].1,
                None => index >= self@.len(),
            },
    {
        if index < self.entries.len() {
            Some(&self.entries[index].value)
        } else {
            None
        }
    }

    /// The keys, in the order of the entries. No key comes twice.
    pub fn keys(&self) -> (keys: Vec<String>)
        ensures
            crate::xml_events::views(keys@) == keys_of(self@),
            keys_of(self@).no_duplicates(),
    {
        proof {
            use_type_invariant(self);
            lemma_keys_of(self@);
        }
        let mut keys: Vec<String> = Vec::new();
        let mut i: usize = 0;
        while i < self.entries.len()
            invariant
                i <= self.entries.len(),
                self@.len() == self.entries.len(),
                crate::xml_events::views(keys@) == keys_of(self@).take(i as int),
            decreases self.entries.len() - i,
        {
            let ghost before = crate::xml_events::views(keys@);
            keys.push(self.entries[i].key.clone());
            assert(crate::xml_events::views(keys@) =~= before.push(self@[i as int].0));
            i = i + 1;
        }
        assert(keys_of(self@).take(i as int) =~= keys_of(self@));
        keys
    }
}

} // verus!
