//! A map keyed by strings, held in a vector: the stand-in for the
//! `HashMap<String, _>` values of the service.
use vstd::prelude::*;
use crate::text::{strs, lemma_index_of_unique};

verus! {

/// A map keyed by strings, each key once, kept in a vector.
pub struct StrMap<V> {
    entries: Vec<(String, V)>,
}

impl<V> StrMap<V> {
    /// The names of the entries, in order.
    pub closed spec fn keys(self) -> Seq<Seq<char>> {
        self.entries@.map_values(|e: (String, V)| e.0@)
    }

    #[verifier::type_invariant]
    closed spec fn wf(self) -> bool {
        self.keys().no_duplicates()
    }
}

impl<V: View> View for StrMap<V> {
    type V = Map<Seq<char>, V::V>;

    closed spec fn view(&self) -> Map<Seq<char>, V::V> {
        Map::new(
            |k: Seq<char>| self.keys().contains(k),
            |k: Seq<char>| self.entries@[self.keys().index_of(k)].1@,
        )
    }
}

impl<V: View> StrMap<V> {
    /// The empty map.
    pub fn new() -> (t: StrMap<V>)
        ensures
            t@ == Map::<Seq<char>, V::V>::empty(),
    {
        let t = StrMap { entries: Vec::new() };
        assert(t.keys() =~= Seq::<Seq<char>>::empty());
        assert(t@ =~= Map::<Seq<char>, V::V>::empty());
        t
    }

    fn find(&self, name: &String) -> (r: Option<usize>)
        ensures
            match r {
                Some(i) => i < self.entries.len() && self.keys()[i as int] == name@,
                None => !self.keys().contains(name@),
            },
    {
        let mut i: usize = 0;
        while i < self.entries.len()
            invariant
                i <= self.entries.len(),
                forall|j: int| 0 <= j < i ==> self.keys()[j] != name@,
            decreases self.entries.len() - i,
        {
            if self.entries[i].0 == *name {
                return Some(i);
            }
            i = i + 1;
        }
        None
    }

    /// Whether `name` is a key.
    pub fn contains_key(&self, name: &String) -> (found: bool)
        ensures
            found == self@.contains_key(name@),
    {
        self.find(name).is_some()
    }

    /// The value of `name`, if it is a key.
    pub fn get(&self, name: &String) -> (r: Option<&V>)
        ensures
            match r {
                Some(p) => self@.contains_key(name@) && p@ == self@[name@],
                None => !self@.contains_key(name@),
            },
    {
        proof { use_type_invariant(self); }
        match self.find(name) {
            Some(i) => {
                proof { lemma_index_of_unique(self.keys(), i as int); }
                Some(&self.entries[i].1)
            },
            None => None,
        }
    }

    /// Maps `name` to `value`; returns whether `name` was not a key before.
    pub fn insert(&mut self, name: String, value: V) -> (was_new: bool)
        ensures
            was_new == !old(self)@.contains_key(name@),
            final(self)@ == old(self)@.insert(name@, value@),
    {
        proof { use_type_invariant(&*self); }
        let ghost old_keys = self.keys();
        let ghost old_entries = self.entries@;
        let ghost key = name@;
        let ghost pv = value@;
        match self.find(&name) {
            Some(i) => {
                proof { lemma_index_of_unique(old_keys, i as int); }
                let mut entries: Vec<(String, V)> = Vec::new();
                std::mem::swap(&mut entries, &mut self.entries);
                entries[i] = (name, value);
                assert(strs_of_entries(entries@) =~= old_keys);
                self.entries = entries;
                proof {
                    assert(self.keys() =~= old_keys);
                    assert forall|k: Seq<char>| #[trigger] self@.contains_key(k) implies
                        self@[k] == old(self)@.insert(key, pv)[k] by {
                        let j = old_keys.index_of(k);
                        assert(old_keys.contains(k));
                        assert(0 <= j < old_keys.len() && old_keys[j] == k);
                        lemma_index_of_unique(old_keys, j);
                    }
                    assert(self@ =~= old(self)@.insert(key, pv));
                }
                false
            },
            None => {
                let mut entries: Vec<(String, V)> = Vec::new();
                std::mem::swap(&mut entries, &mut self.entries);
                entries.push((name, value));
                assert(strs_of_entries(entries@) =~= old_keys.push(key));
                self.entries = entries;
                proof {
                    assert(self.keys() =~= old_keys.push(key));
                    assert forall|k: Seq<char>| #[trigger] self@.contains_key(k) implies
                        self@[k] == old(self)@.insert(key, pv)[k] by {
                        let ks = old_keys.push(key);
                        let j = ks.index_of(k);
                        assert(ks.contains(k));
                        assert(0 <= j < ks.len() && ks[j] == k);
                        lemma_index_of_unique(ks, j);
                        if k != key {
                            assert(j < old_keys.len());
                            lemma_index_of_unique(old_keys, j);
                        }
                    }
                    assert forall|k: Seq<char>| old(self)@.insert(key, pv).contains_key(k) implies
                        #[trigger] self@.contains_key(k) by {
                        if k == key {
                            assert(old_keys.push(key)[old_keys.len() as int] == key);
                        } else {
                            let j = choose|j: int| 0 <= j < old_keys.len() && old_keys[j] == k;
                            assert(old_keys.push(key)[j] == k);
                        }
                    }
                    assert(self@ =~= old(self)@.insert(key, pv));
                }
                true
            },
        }
    }

    /// Drops `name`; returns whether it was a key.
    pub fn remove(&mut self, name: &String) -> (was_present: bool)
        ensures
            was_present == old(self)@.contains_key(name@),
            final(self)@ == old(self)@.remove(name@),
    {
        proof { use_type_invariant(&*self); }
        let ghost old_keys = self.keys();
        let ghost key = name@;
        match self.find(name) {
            Some(i) => {
                proof { lemma_index_of_unique(old_keys, i as int); }
                let mut entries: Vec<(String, V)> = Vec::new();
                std::mem::swap(&mut entries, &mut self.entries);
                let _ = entries.remove(i);
                assert(strs_of_entries(entries@) =~= old_keys.remove(i as int));
                self.entries = entries;
                proof {
                    let ks = old_keys.remove(i as int);
                    assert(self.keys() =~= ks);
                    assert forall|k: Seq<char>| #[trigger] self@.contains_key(k) implies
                        self@[k] == old(self)@.remove(key)[k] && old(self)@.remove(key).contains_key(k) by {
                        let j = ks.index_of(k);
                        assert(ks.contains(k));
                        lemma_index_of_unique(ks, j);
                        let oj = if j < i { j } else { j + 1 };
                        assert(old_keys[oj] == k);
                        lemma_index_of_unique(old_keys, oj);
                    }
                    assert forall|k: Seq<char>| old(self)@.remove(key).contains_key(k) implies
                        #[trigger] self@.contains_key(k) by {
                        let j = choose|j: int| 0 <= j < old_keys.len() && old_keys[j] == k;
                        if j < i {
                            assert(ks[j] == k);
                        } else {
                            assert(ks[j - 1] == k);
                        }
                    }
                    assert(self@ =~= old(self)@.remove(key));
                }
                true
            },
            None => {
                assert(old(self)@.remove(key) =~= old(self)@);
                false
            },
        }
    }

    /// The keys, each once.
    pub fn names(&self) -> (v: Vec<String>)
        ensures
            strs(v@).no_duplicates(),
            strs(v@).to_set() == self@.dom(),
    {
        proof { use_type_invariant(self); }
        let mut v: Vec<String> = Vec::new();
        let mut i: usize = 0;
        while i < self.entries.len()
            invariant
                i <= self.entries.len(),
                self.keys().no_duplicates(),
                strs(v@) == self.keys().take(i as int),
            decreases self.entries.len() - i,
        {
            let name = self.entries[i].0.clone();
            let ghost before = v@;
            v.push(name);
            assert(self.keys()[i as int] == self.entries@[i as int].0@);
            assert(v@ == before.push(name));
            assert(strs(v@) =~= strs(before).push(name@));
            assert(strs(v@) =~= self.keys().take(i + 1));
            i = i + 1;
        }
        assert(self.keys().take(self.entries.len() as int) =~= self.keys());
        assert(strs(v@).to_set() =~= self@.dom());
        v
    }
}

/// The keys of a sequence of entries.
pub open spec fn strs_of_entries<V>(e: Seq<(String, V)>) -> Seq<Seq<char>> {
    e.map_values(|x: (String, V)| x.0@)
}

} // verus!
