//! A table keyed by text, each key once, that remembers the order keys were
//! first written in.

use vstd::prelude::*;
use crate::text::str_eq;

verus! {

/// The keys of a list of entries, in order.
pub open spec fn keys_of<V>(entries: Seq<(String, V)>) -> Seq<Seq<char>> {
    entries.map_values(|e: (String, V)| e.0@)
}

/// A table from text keys to values.
#[derive(Debug)]
pub struct Table<V> {
    entries: Vec<(String, V)>,
}

/// In a sequence without repeats, the first place an item occurs is the
/// place it was found.
proof fn lemma_index_of_unique(ks: Seq<Seq<char>>, i: int)
    requires
        ks.no_duplicates(),
        0 <= i < ks.len(),
    ensures
        ks.index_of(ks[i]) == i,
{
    ks.index_of_first_ensures(ks[i]);
}

/// Where an item occurs, its first place holds it.
proof fn lemma_index_of(ks: Seq<Seq<char>>, k: Seq<char>)
    requires
        ks.contains(k),
    ensures
        0 <= ks.index_of(k) < ks.len(),
        ks[ks.index_of(k)] == k,
{
}

impl<V> Table<V> {
    #[verifier::type_invariant]
    spec fn distinct_keys(&self) -> bool {
        keys_of(self.entries@).no_duplicates()
    }

    /// The keys, in the order they were first inserted.
    pub closed spec fn keys(&self) -> Seq<Seq<char>> {
        keys_of(self.entries@)
    }

    /// The table as a map.
    pub closed spec fn map(&self) -> Map<Seq<char>, V> {
        Map::new(
            |k: Seq<char>| self.keys().contains(k),
            |k: Seq<char>| self.entries@[self.keys().index_of(k)].1,
        )
    }

    /// An empty table.
    pub fn new() -> (table: Self)
        ensures
            table.map() == Map::<Seq<char>, V>::empty(),
            table.keys().len() == 0,
    {
        let table = Table { entries: Vec::new() };
        assert(table.map() =~= Map::<Seq<char>, V>::empty());
        table
    }

    /// How many keys the table holds; the keys are distinct, and they are
    /// exactly the map's domain.
    pub fn len(&self) -> (n: usize)
        ensures
            n == self.keys().len(),
            self.keys().no_duplicates(),
            forall|k: Seq<char>| #[trigger] self.map().dom().contains(k) <==> self.keys().contains(k),
    {
        proof {
            use_type_invariant(self);
        }
        self.entries.len()
    }

    fn find(&self, key: &str) -> (at: Option<usize>)
        ensures
            (match at {
                Some(i) => i < self.entries@.len() && self.keys()[i as int] == key@,
                None => !self.keys().contains(key@),
            }),
    {
        let mut i: usize = 0;
        while i < self.entries.len()
            invariant
                i <= self.entries@.len(),
                forall|j: int| 0 <= j < i ==> self.entries@[j].0@ != key@,
            decreases self.entries.len() - i,
        {
            if str_eq(self.entries[i].0.as_str(), key) {
                return Some(i);
            }
            i = i + 1;
        }
        proof {
            if self.keys().contains(key@) {
                let k = choose|k: int| 0 <= k < self.keys().len() && self.keys()[k] == key@;
                assert(self.entries@[k].0@ == key@);
            }
        }
        None
    }

    /// Whether `key` is in the table.
    pub fn contains(&self, key: &str) -> (b: bool)
        ensures
            b == self.map().dom().contains(key@),
    {
        self.find(key).is_some()
    }

    /// The value under `key`.
    pub fn get(&self, key: &str) -> (v: Option<&V>)
        ensures
            (match v {
                Some(v) => self.map().dom().contains(key@) && *v == self.map()[key@],
                None => !self.map().dom().contains(key@),
            }),
    {
        proof {
            use_type_invariant(self);
        }
        match self.find(key) {
            Some(i) => {
                proof {
                    lemma_index_of_unique(self.keys(), i as int);
                }
                Some(&self.entries[i].1)
            },
            None => None,
        }
    }

    /// The `i`th key, in insertion order.
    pub fn key_at(&self, i: usize) -> (k: &str)
        requires
            i < self.keys().len(),
        ensures
            k@ == self.keys()[i as int],
            self.map().dom().contains(k@),
    {
        self.entries[i].0.as_str()
    }

    /// The value under the `i`th key.
    pub fn value_at(&self, i: usize) -> (v: &V)
        requires
            i < self.keys().len(),
        ensures
            *v == self.map()[self.keys()[i as int]],
    {
        proof {
            use_type_invariant(self);
            lemma_index_of_unique(self.keys(), i as int);
        }
        &self.entries[i].1
    }

    /// Put `value` under `key`, in place of any value already there. A new
    /// key goes last.
    pub fn insert(&mut self, key: String, value: V)
        ensures
            final(self).map() == old(self).map().insert(key@, value),
            final(self).keys() == (if old(self).keys().contains(key@) {
                old(self).keys()
            } else {
                old(self).keys().push(key@)
            }),
    {
        proof {
            use_type_invariant(&*self);
        }
        let ghost before = self.map();
        let ghost ks0 = self.keys();
        let ghost e0 = self.entries@;
        let found = self.find(key.as_str());
        let mut entries: Vec<(String, V)> = Vec::new();
        std::mem::swap(&mut entries, &mut self.entries);
        let ghost k = key@;
        match found {
            Some(i) => {
                entries.set(i, (key, value));
                proof {
                    let ks = keys_of(entries@);
                    assert(ks =~= ks0);
                    assert forall|x: Seq<char>| #[trigger] ks.contains(x) implies entries@[ks.index_of(x)].1
                        == (if x == k { value } else { before[x] }) by {
                        lemma_index_of(ks, x);
                        if x == k {
                            lemma_index_of_unique(ks, i as int);
                        } else {
                            assert(ks.index_of(x) != i);
                        }
                    }
                }
                self.entries = entries;
                assert(self.map() =~= before.insert(k, value));
            },
            None => {
                entries.push((key, value));
                proof {
                    let ks = keys_of(entries@);
                    assert(ks =~= ks0.push(k));
                    assert forall|a: int, b: int|
                        0 <= a < ks.len() && 0 <= b < ks.len() && a != b implies ks[a] != ks[b] by {
                        if a == ks0.len() {
                            assert(ks0.contains(ks[b]));
                        } else if b == ks0.len() {
                            assert(ks0.contains(ks[a]));
                        }
                    }
                    assert forall|x: Seq<char>| #[trigger] ks.contains(x) implies entries@[ks.index_of(x)].1
                        == (if x == k { value } else { before[x] }) by {
                        lemma_index_of(ks, x);
                        if x == k {
                            lemma_index_of_unique(ks, ks0.len() as int);
                        } else {
                            let j = ks.index_of(x);
                            assert(j < ks0.len());
                            assert(ks0[j] == x);
                            lemma_index_of(ks0, x);
                            lemma_index_of_unique(ks0, j);
                        }
                    }
                    assert forall|x: Seq<char>| #[trigger] before.insert(k, value).dom().contains(x) implies ks.contains(x) by {
                        if x != k {
                            assert(before.dom().contains(x));
                            assert(ks0.contains(x));
                            lemma_index_of(ks0, x);
                            assert(ks[ks0.index_of(x)] == x);
                        } else {
                            assert(ks[ks0.len() as int] == k);
                        }
                    }
                }
                self.entries = entries;
                assert(self.map() =~= before.insert(k, value));
            },
        }
    }
}

impl<T> Table<Vec<T>> {
    /// Add `item` at the end of the list under `key`, starting the list
    /// where there is none.
    pub fn push_to(&mut self, key: String, item: T)
        ensures
            final(self).map().dom() == old(self).map().dom().insert(key@),
            final(self).map()[key@]@ == (if old(self).map().dom().contains(key@) {
                old(self).map()[key@]@
            } else {
                Seq::<T>::empty()
            }).push(item),
            forall|x: Seq<char>|
                x != key@ && #[trigger] old(self).map().dom().contains(x) ==> final(self).map()[x]
                    == old(self).map()[x],
            final(self).keys() == (if old(self).keys().contains(key@) {
                old(self).keys()
            } else {
                old(self).keys().push(key@)
            }),
    {
        proof {
            use_type_invariant(&*self);
        }
        let ghost before = self.map();
        let ghost ks0 = self.keys();
        let found = self.find(key.as_str());
        match found {
            Some(i) => {
                let mut entries: Vec<(String, Vec<T>)> = Vec::new();
                std::mem::swap(&mut entries, &mut self.entries);
                let ghost e0 = entries@;
                let (k, mut items) = entries.remove(i);
                proof {
                    lemma_index_of_unique(ks0, i as int);
                    assert(items@ == before[key@]@);
                }
                items.push(item);
                let ghost pushed = items;
                entries.insert(i, (k, items));
                proof {
                    let ks = keys_of(entries@);
                    assert(entries@ =~= e0.update(i as int, (k, pushed)));
                    assert(ks =~= ks0);
                    assert forall|x: Seq<char>| #[trigger] ks.contains(x) implies entries@[ks.index_of(x)].1
                        == (if x == key@ { pushed } else { before[x] }) by {
                        lemma_index_of(ks, x);
                        if x == key@ {
                            lemma_index_of_unique(ks, i as int);
                        } else {
                            assert(ks.index_of(x) != i);
                        }
                    }
                }
                self.entries = entries;
                assert(self.map() =~= before.insert(key@, pushed));
            },
            None => {
                let mut items: Vec<T> = Vec::new();
                items.push(item);
                assert(items@ =~= Seq::<T>::empty().push(item));
                self.insert(key, items);
            },
        }
    }
}

} // verus!
