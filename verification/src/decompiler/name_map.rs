//! A map keyed by names.

use vstd::hash_map::StringHashMap;
use vstd::prelude::*;

use super::ast::Name;

verus! {

/// A map from names to values whose keys can be walked by position.
///
/// The entries stand in the order in which their keys first came in; `index` finds the
/// position of a key.
pub struct NameMap<V> {
    entries: Vec<(String, V)>,
    index: StringHashMap<usize>,
}

impl<V> View for NameMap<V> {
    type V = Map<Name, V>;

    closed spec fn view(&self) -> Map<Name, V> {
        Map::new(
            |k: Name| self.index@.contains_key(k),
            |k: Name| self.entries@[self.index@[k] as int].1,
        )
    }
}

impl<V> NameMap<V> {
    /// Every key is held by exactly one entry, and `index` says which.
    pub closed spec fn wf(self) -> bool {
        &&& forall|k: Name| #[trigger]
            self.index@.contains_key(k) ==> {
                &&& self.index@[k] < self.entries@.len()
                &&& self.entries@[self.index@[k] as int].0@ == k
            }
        &&& forall|i: int|
            0 <= i < self.entries@.len() ==> {
                &&& self.index@.contains_key((#[trigger] self.entries@[i]).0@)
                &&& self.index@[self.entries@[i].0@] == i
            }
    }

    /// The keys in the order of the entries.
    pub closed spec fn keys(self) -> Seq<Name> {
        self.entries@.map_values(|e: (String, V)| e.0@)
    }

    /// The positions run over exactly the keys of the map.
    pub proof fn lemma_keys(self)
        requires
            self.wf(),
        ensures
            forall|k: Name| #[trigger] self@.contains_key(k) <==> self.keys().contains(k),
            self.keys().no_duplicates(),
    {
        assert forall|k: Name| #[trigger] self@.contains_key(k) implies self.keys().contains(k) by {
            assert(self.keys()[self.index@[k] as int] == k);
        }
        assert forall|k: Name| self.keys().contains(k) implies #[trigger] self@.contains_key(k) by {
            let i = choose|i: int| 0 <= i < self.keys().len() && self.keys()[i] == k;
            assert(self.entries@[i].0@ == k);
        }
        assert forall|i: int, j: int|
            0 <= i < self.keys().len() && 0 <= j < self.keys().len() && i != j implies self.keys()[i]
            != self.keys()[j] by {
            assert(self.index@[self.entries@[i].0@] == i);
            assert(self.index@[self.entries@[j].0@] == j);
        }
    }

    pub fn new() -> (res: Self)
        ensures
            res.wf(),
            res@ == Map::<Name, V>::empty(),
            res.keys() == Seq::<Name>::empty(),
    {
        let res = NameMap { entries: Vec::new(), index: StringHashMap::new() };
        assert(res@ =~= Map::<Name, V>::empty());
        assert(res.keys() =~= Seq::<Name>::empty());
        res
    }

    pub fn len(&self) -> (res: usize)
        requires
            self.wf(),
        ensures
            res == self.keys().len(),
    {
        self.entries.len()
    }

    /// The key at a position.
    pub fn key_at(&self, i: usize) -> (res: &String)
        requires
            self.wf(),
            i < self.keys().len(),
        ensures
            res@ == self.keys()[i as int],
    {
        &self.entries[i].0
    }

    pub fn get(&self, key: &str) -> (res: Option<&V>)
        requires
            self.wf(),
        ensures
            match res {
                Some(v) => self@.contains_key(key@) && *v == self@[key@],
                None => !self@.contains_key(key@),
            },
    {
        match self.index.get(key) {
            Some(i) => Some(&self.entries[*i].1),
            None => None,
        }
    }

    /// Maps `key` to `value`; a key that is already there keeps its position.
    pub fn insert(&mut self, key: String, value: V)
        requires
            old(self).wf(),
        ensures
            final(self).wf(),
            final(self)@ == old(self)@.insert(key@, value),
            old(self)@.contains_key(key@) ==> final(self).keys() == old(self).keys(),
            !old(self)@.contains_key(key@) ==> final(self).keys() == old(self).keys().push(key@),
    {
        let found: Option<usize> = match self.index.get(key.as_str()) {
            Some(i) => Some(*i),
            None => None,
        };
        match found {
            Some(i) => {
                self.entries[i].1 = value;
                assert(forall|j: int|
                    0 <= j < self.entries@.len() ==> (#[trigger] self.entries@[j]).0
                        == old(self).entries@[j].0);
                assert(self.keys() =~= old(self).keys());
                assert(self@ =~= old(self)@.insert(key@, value));
            },
            None => {
                let i = self.entries.len();
                self.index.insert(key.clone(), i);
                self.entries.push((key, value));
                assert(forall|j: int|
                    0 <= j < i ==> #[trigger] self.entries@[j] == old(self).entries@[j]);
                assert(self.keys() =~= old(self).keys().push(key@));
                assert(self@ =~= old(self)@.insert(key@, value));
            },
        }
    }
}

} // verus!
