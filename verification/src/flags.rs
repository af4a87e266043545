//! A set of short strings: the flags of a feature, or a set of feature names.
use vstd::prelude::*;
use crate::text::{strs, contains_str, lemma_push_to_set};

verus! {

/// A set of strings, held in the order in which they first came in.
pub struct FlagSet {
    items: Vec<String>,
}

impl FlagSet {
    #[verifier::type_invariant]
    closed spec fn wf(self) -> bool {
        strs(self.items@).no_duplicates()
    }
}

impl View for FlagSet {
    type V = Set<Seq<char>>;

    closed spec fn view(&self) -> Set<Seq<char>> {
        strs(self.items@).to_set()
    }
}

impl FlagSet {
    /// The empty set.
    pub fn new() -> (s: FlagSet)
        ensures
            s@ == Set::<Seq<char>>::empty(),
    {
        let items: Vec<String> = Vec::new();
        assert(strs(items@) =~= Seq::<Seq<char>>::empty());
        let s = FlagSet { items };
        assert(strs(s.items@).to_set() =~= Set::<Seq<char>>::empty());
        s
    }

    /// The set of the strings of `v`.
    pub fn from_strings(v: Vec<String>) -> (s: FlagSet)
        ensures
            s@ == strs(v@).to_set(),
    {
        let mut s = FlagSet::new();
        let mut i: usize = 0;
        while i < v.len()
            invariant
                i <= v.len(),
                s@ == strs(v@.take(i as int)).to_set(),
            decreases v.len() - i,
        {
            s.insert(v[i].clone());
            proof {
                assert(strs(v@.take(i + 1)) =~= strs(v@.take(i as int)).push(v@[i as int]@));
                lemma_push_to_set(strs(v@.take(i as int)), v@[i as int]@);
            }
            i = i + 1;
        }
        assert(v@.take(v.len() as int) =~= v@);
        s
    }

    /// Whether `flag` is in the set.
    pub fn contains(&self, flag: &String) -> (found: bool)
        ensures
            found == self@.contains(flag@),
    {
        contains_str(&self.items, flag)
    }

    /// Adds `flag` to the set.
    pub fn insert(&mut self, flag: String)
        ensures
            final(self)@ == old(self)@.insert(flag@),
    {
        proof { use_type_invariant(&*self); }
        if !contains_str(&self.items, &flag) {
            let ghost before = self.items@;
            proof {
                let t = strs(before).push(flag@);
                assert forall|a: int, b: int| 0 <= a < t.len() && 0 <= b < t.len() && a != b implies t[a] != t[b] by {
                    if a == before.len() {
                        assert(t[b] == strs(before)[b]);
                    } else if b == before.len() {
                        assert(t[a] == strs(before)[a]);
                    }
                }
                assert(strs(before.push(flag)) =~= t);
            }
            let mut items: Vec<String> = Vec::new();
            std::mem::swap(&mut items, &mut self.items);
            items.push(flag);
            self.items = items;
            assert(strs(self.items@) =~= strs(before).push(flag@));
            proof { lemma_push_to_set(strs(before), flag@); }
        } else {
            assert(old(self)@.insert(flag@) =~= old(self)@);
        }
    }

    /// Adds every string of `other` to the set.
    pub fn extend(&mut self, other: &FlagSet)
        ensures
            final(self)@ == old(self)@.union(other@),
    {
        let mut i: usize = 0;
        while i < other.items.len()
            invariant
                i <= other.items.len(),
                self@ == old(self)@.union(strs(other.items@.take(i as int)).to_set()),
            decreases other.items.len() - i,
        {
            self.insert(other.items[i].clone());
            proof {
                let t = other.items@.take(i as int);
                assert(strs(other.items@.take(i + 1)) =~= strs(t).push(other.items@[i as int]@));
                lemma_push_to_set(strs(t), other.items@[i as int]@);
                assert(self@ =~= old(self)@.union(strs(other.items@.take(i + 1)).to_set()));
            }
            i = i + 1;
        }
        assert(other.items@.take(other.items.len() as int) =~= other.items@);
    }

    /// A copy of the set.
    pub fn duplicate(&self) -> (s: FlagSet)
        ensures
            s@ == self@,
    {
        let mut s = FlagSet::new();
        s.extend(self);
        assert(s@ =~= self@);
        s
    }

    /// The strings of the set, each once.
    pub fn to_strings(&self) -> (v: Vec<String>)
        ensures
            strs(v@).to_set() == self@,
            strs(v@).no_duplicates(),
    {
        proof { use_type_invariant(self); }
        let mut v: Vec<String> = Vec::new();
        let mut i: usize = 0;
        while i < self.items.len()
            invariant
                i <= self.items.len(),
                strs(v@) == strs(self.items@).take(i as int),
            decreases self.items.len() - i,
        {
            let ghost v0 = strs(v@);
            let s = self.items[i].clone();
            v.push(s);
            assert(strs(v@) =~= v0.push(self.items@[i as int]@));
            assert(strs(self.items@).take(i + 1) =~= strs(self.items@).take(i as int).push(self.items@[i as int]@));
            i = i + 1;
        }
        assert(strs(self.items@).take(self.items.len() as int) =~= strs(self.items@));
        v
    }
}

} // verus!
