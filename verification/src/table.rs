//! A small map from text keys to values, kept in the order in which the
//! keys first came. No key stands in it twice.

use crate::text::text_eq;
use vstd::prelude::*;

verus! {

/// The map that a list of distinct keys and the list of their values stand
/// for.
pub open spec fn assoc<T>(keys: Seq<Seq<char>>, values: Seq<T>) -> Map<Seq<char>, T> {
    Map::new(|k: Seq<char>| keys.contains(k), |k: Seq<char>| values[keys.index_of(k)])
}

/// What `assoc` holds, entry by entry, and how large it is.
pub proof fn lemma_assoc<T>(keys: Seq<Seq<char>>, values: Seq<T>)
    requires
        keys.no_duplicates(),
        keys.len() == values.len(),
    ensures
        forall|i: int|
            0 <= i < keys.len() ==> assoc(keys, values).dom().contains(#[trigger] keys[i]) && assoc(
                keys,
                values,
            )[keys[i]] == values[i],
        forall|k: Seq<char>| #[trigger] assoc(keys, values).dom().contains(k) <==> keys.contains(k),
        assoc(keys, values).dom() == keys.to_set(),
        assoc(keys, values).dom().finite(),
        assoc(keys, values).dom().len() == keys.len(),
{
    let m = assoc(keys, values);
    assert forall|i: int| 0 <= i < keys.len() implies m.dom().contains(#[trigger] keys[i])
        && m[keys[i]] == values[i] by {
        assert(keys.contains(keys[i]));
        let j = keys.index_of(keys[i]);
        assert(0 <= j < keys.len() && keys[j] == keys[i]);
    }
    assert(m.dom() =~= keys.to_set());
    vstd::seq_lib::seq_to_set_is_finite(keys);
    keys.unique_seq_to_set();
}

/// Appending a key that is new appends an entry to the map.
pub proof fn lemma_assoc_push<T>(keys: Seq<Seq<char>>, values: Seq<T>, k: Seq<char>, v: T)
    requires
        keys.no_duplicates(),
        keys.len() == values.len(),
        !keys.contains(k),
    ensures
        keys.push(k).no_duplicates(),
        assoc(keys.push(k), values.push(v)) == assoc(keys, values).insert(k, v),
{
    let keys2 = keys.push(k);
    let values2 = values.push(v);
    assert forall|i: int, j: int|
        0 <= i < keys2.len() && 0 <= j < keys2.len() && i != j implies keys2[i] != keys2[j] by {
        if i < keys.len() {
            assert(keys.contains(keys[i]));
        }
        if j < keys.len() {
            assert(keys.contains(keys[j]));
        }
    }
    lemma_assoc(keys, values);
    lemma_assoc(keys2, values2);
    let a = assoc(keys2, values2);
    let b = assoc(keys, values).insert(k, v);
    assert forall|x: Seq<char>| a.dom().contains(x) <==> b.dom().contains(x) by {
        if keys2.contains(x) {
            let i = keys2.index_of(x);
            if i < keys.len() {
                assert(keys[i] == x);
                assert(keys.contains(x));
            }
        }
        if keys.contains(x) {
            let i = keys.index_of(x);
            assert(keys2[i] == x);
        }
        assert(keys2[keys.len() as int] == k);
    }
    assert forall|x: Seq<char>| a.dom().contains(x) implies #[trigger] a[x] == b[x] by {
        let i = keys2.index_of(x);
        assert(keys2[i] == x);
        assert(a[keys2[i]] == values2[i]);
        if i < keys.len() {
            assert(keys[i] == x);
            assert(assoc(keys, values)[keys[i]] == values[i]);
        }
    }
    assert(a =~= b);
}

/// Replacing the value of a key that is there replaces it in the map.
pub proof fn lemma_assoc_update<T>(keys: Seq<Seq<char>>, values: Seq<T>, i: int, v: T)
    requires
        keys.no_duplicates(),
        keys.len() == values.len(),
        0 <= i < keys.len(),
    ensures
        assoc(keys, values.update(i, v)) == assoc(keys, values).insert(keys[i], v),
{
    let values2 = values.update(i, v);
    lemma_assoc(keys, values);
    lemma_assoc(keys, values2);
    let a = assoc(keys, values2);
    let b = assoc(keys, values).insert(keys[i], v);
    assert(keys.contains(keys[i]));
    assert forall|x: Seq<char>| a.dom().contains(x) implies #[trigger] a[x] == b[x] by {
        let j = keys.index_of(x);
        assert(keys[j] == x);
        assert(a[keys[j]] == values2[j]);
        assert(assoc(keys, values)[keys[j]] == values[j]);
    }
    assert(a =~= b);
}

/// The place of the first key equal to `key`, if there is one.
pub fn find_text(keys: &Vec<String>, key: &str) -> (at: Option<usize>)
    ensures
        match at {
            Some(i) => i < keys@.len() && keys.deep_view()[i as int] == key@ && forall|j: int|
                0 <= j < i ==> keys.deep_view()[j] != key@,
            None => !keys.deep_view().contains(key@),
        },
{
    let mut i: usize = 0;
    while i < keys.len()
        invariant
            i <= keys@.len(),
            forall|j: int| 0 <= j < i ==> keys.deep_view()[j] != key@,
        decreases keys@.len() - i,
    {
        if text_eq(keys[i].as_str(), key) {
            assert(keys.deep_view()[i as int] == keys@[i as int]@);
            return Some(i);
        }
        assert(keys.deep_view()[i as int] == keys@[i as int]@);
        i += 1;
    }
    None
}

/// A map from text keys to values of type `V`.
#[derive(Clone)]
pub struct Table<V> {
    keys: Vec<String>,
    values: Vec<V>,
}

impl<V: View> Table<V> {
    /// The keys, in the order in which they first came.
    pub closed spec fn key_seq(&self) -> Seq<Seq<char>> {
        self.keys.deep_view()
    }

    /// The values, each at the place of its key.
    pub closed spec fn value_seq(&self) -> Seq<V::V> {
        Seq::new(self.values@.len(), |i: int| self.values@[i]@)
    }

    /// Every key has its value, and no key stands twice.
    pub closed spec fn wf(&self) -> bool {
        &&& self.keys@.len() == self.values@.len()
        &&& self.key_seq().no_duplicates()
    }

    /// The table as a map.
    pub closed spec fn view(&self) -> Map<Seq<char>, V::V> {
        assoc(self.key_seq(), self.value_seq())
    }

    /// How the map, the keys and the values belong together.
    pub proof fn lemma_entries(&self)
        requires
            self.wf(),
        ensures
            self.key_seq().no_duplicates(),
            self.key_seq().len() == self.value_seq().len(),
            self@ == assoc(self.key_seq(), self.value_seq()),
            forall|i: int|
                0 <= i < self.key_seq().len() ==> self@.dom().contains(#[trigger] self.key_seq()[i])
                    && self@[self.key_seq()[i]] == self.value_seq()[i],
            forall|k: Seq<char>| #[trigger] self@.dom().contains(k) <==> self.key_seq().contains(k),
            self@.dom().finite(),
            self@.dom().len() == self.key_seq().len(),
    {
        lemma_assoc(self.key_seq(), self.value_seq());
    }

    /// An empty table.
    pub fn new() -> (table: Self)
        ensures
            table.wf(),
            table@ == Map::<Seq<char>, V::V>::empty(),
            table.key_seq() == Seq::<Seq<char>>::empty(),
    {
        let table = Table { keys: Vec::new(), values: Vec::new() };
        proof {
            assert(table.key_seq() =~= Seq::<Seq<char>>::empty());
            assert(table@ =~= Map::<Seq<char>, V::V>::empty());
        }
        table
    }

    /// The number of entries.
    pub fn len(&self) -> (n: usize)
        requires
            self.wf(),
        ensures
            n == self.key_seq().len(),
            n == self@.dom().len(),
    {
        proof {
            self.lemma_entries();
        }
        self.keys.len()
    }

    /// The place of `key` among the keys, if it is one of them.
    pub fn position(&self, key: &str) -> (at: Option<usize>)
        requires
            self.wf(),
        ensures
            match at {
                Some(i) => i < self.key_seq().len() && self.key_seq()[i as int] == key@,
                None => !self.key_seq().contains(key@),
            },
            at.is_some() == self@.dom().contains(key@),
    {
        proof {
            self.lemma_entries();
        }
        let at = find_text(&self.keys, key);
        proof {
            if let Some(i) = at {
                assert(self.key_seq().contains(self.key_seq()[i as int]));
            }
        }
        at
    }

    /// Whether `key` has an entry.
    pub fn contains_key(&self, key: &str) -> (found: bool)
        requires
            self.wf(),
        ensures
            found == self@.dom().contains(key@),
    {
        self.position(key).is_some()
    }

    /// The value under `key`, if there is one.
    pub fn get(&self, key: &str) -> (value: Option<&V>)
        requires
            self.wf(),
        ensures
            match value {
                Some(v) => self@.dom().contains(key@) && v@ == self@[key@],
                None => !self@.dom().contains(key@),
            },
    {
        proof {
            self.lemma_entries();
        }
        match self.position(key) {
            Some(i) => {
                assert(self.value_seq()[i as int] == self.values@[i as int]@);
                Some(&self.values[i])
            },
            None => None,
        }
    }

    /// The key at place `i`.
    pub fn key_at(&self, i: usize) -> (key: &String)
        requires
            self.wf(),
            i < self.key_seq().len(),
        ensures
            key@ == self.key_seq()[i as int],
    {
        assert(self.keys.deep_view()[i as int] == self.keys@[i as int]@);
        &self.keys[i]
    }

    /// The value at place `i`.
    pub fn value_at(&self, i: usize) -> (value: &V)
        requires
            self.wf(),
            i < self.key_seq().len(),
        ensures
            value@ == self.value_seq()[i as int],
            value@ == self@[self.key_seq()[i as int]],
    {
        proof {
            self.lemma_entries();
        }
        &self.values[i]
    }

    /// Sets the value under `key`, whether or not the key had one.
    pub fn put(&mut self, key: String, value: V)
        requires
            old(self).wf(),
        ensures
            final(self).wf(),
            final(self)@ == old(self)@.insert(key@, value@),
            final(self).key_seq() == if old(self)@.dom().contains(key@) {
                old(self).key_seq()
            } else {
                old(self).key_seq().push(key@)
            },
    {
        proof {
            self.lemma_entries();
        }
        let ghost keys0 = self.key_seq();
        let ghost values0 = self.value_seq();
        match self.position(key.as_str()) {
            Some(i) => {
                self.values[i] = value;
                proof {
                    assert(self.value_seq() =~= values0.update(i as int, value@));
                    lemma_assoc_update(keys0, values0, i as int, value@);
                }
            },
            None => {
                self.keys.push(key);
                self.values.push(value);
                proof {
                    assert(self.key_seq() =~= keys0.push(key@));
                    assert(self.value_seq() =~= values0.push(value@));
                    lemma_assoc_push(keys0, values0, key@, value@);
                }
            },
        }
    }
}

} // verus!
