//! The ordered set of feature names that selection walks over, kept in an
//! `indexmap::IndexSet` as the rest of the service does.
use vstd::prelude::*;
use vstd::relations::sorted_by;
use indexmap::IndexSet;
use crate::text::{strs, str_order};

verus! {

#[verifier::external_type_specification]
#[verifier::external_body]
#[verifier::reject_recursive_types(T)]
#[verifier::reject_recursive_types(S)]
pub struct ExIndexSet<T, S>(IndexSet<T, S>);

/// The strings that an `IndexSet<String>` holds, in its order.
pub uninterp spec fn index_set_items(set: IndexSet<String>) -> Seq<Seq<char>>;

/// `s` with `x` taken out as `IndexSet::swap_remove` does: the last element
/// moves into its place.
pub open spec fn swap_removed(s: Seq<Seq<char>>, x: Seq<char>) -> Seq<Seq<char>> {
    if s.contains(x) {
        let i = s.index_of(x);
        s.update(i, s.last()).drop_last()
    } else {
        s
    }
}

/// `s` with `x` appended unless it is already there, as `IndexSet::insert` does.
pub open spec fn inserted(s: Seq<Seq<char>>, x: Seq<char>) -> Seq<Seq<char>> {
    if s.contains(x) {
        s
    } else {
        s.push(x)
    }
}

/// What `swap_removed` keeps: every other element, each once.
pub proof fn lemma_swap_removed(s: Seq<Seq<char>>, x: Seq<char>)
    requires
        s.no_duplicates(),
    ensures
        forall|y: Seq<char>| #[trigger] swap_removed(s, x).contains(y) <==> (s.contains(y) && y != x),
        s.contains(x) ==> swap_removed(s, x).len() == s.len() - 1,
        !s.contains(x) ==> swap_removed(s, x) == s,
{
    if s.contains(x) {
        let i = s.index_of(x);
        let n = s.len() - 1;
        let t = s.update(i, s.last()).drop_last();
        assert(0 <= i < s.len() && s[i] == x);
        assert forall|y: Seq<char>| #[trigger] t.contains(y) <==> (s.contains(y) && y != x) by {
            if t.contains(y) {
                let k = choose|k: int| 0 <= k < t.len() && t[k] == y;
                if k == i {
                    assert(s[n] == y);
                    if y == x {
                        assert(s[n] == s[i]);
                    }
                } else {
                    assert(s[k] == y);
                }
            }
            if s.contains(y) && y != x {
                let k = choose|k: int| 0 <= k < s.len() && s[k] == y;
                if k == n {
                    assert(t[i] == y);
                } else {
                    assert(k != i);
                    assert(t[k] == y);
                }
            }
        }
    }
}

/// What `inserted` holds: the old elements and the new one.
pub proof fn lemma_inserted(s: Seq<Seq<char>>, x: Seq<char>)
    ensures
        forall|y: Seq<char>| #[trigger] inserted(s, x).contains(y) <==> (s.contains(y) || y == x),
{
    if !s.contains(x) {
        assert forall|y: Seq<char>| #[trigger] inserted(s, x).contains(y) <==> (s.contains(y) || y == x) by {
            if inserted(s, x).contains(y) {
                let k = choose|k: int| 0 <= k < s.len() + 1 && s.push(x)[k] == y;
                if k < s.len() {
                    assert(s[k] == y);
                }
            }
            if s.contains(y) {
                let k = choose|k: int| 0 <= k < s.len() && s[k] == y;
                assert(s.push(x)[k] == y);
            }
            if y == x {
                assert(s.push(x)[s.len() as int] == x);
            }
        }
    }
}

/// Taking an element out keeps a sequence free of duplicates.
pub proof fn lemma_swap_removed_no_dup(s: Seq<Seq<char>>, x: Seq<char>)
    requires
        s.no_duplicates(),
    ensures
        swap_removed(s, x).no_duplicates(),
{
    if s.contains(x) {
        let i = s.index_of(x);
        let n = s.len() - 1;
        let t = swap_removed(s, x);
        assert forall|a: int, b: int| 0 <= a < t.len() && 0 <= b < t.len() && a != b implies t[a] != t[b] by {
            if a == i {
                assert(t[a] == s[n]);
                assert(t[b] == s[b]);
            } else if b == i {
                assert(t[b] == s[n]);
                assert(t[a] == s[a]);
            } else {
                assert(t[a] == s[a] && t[b] == s[b]);
            }
        }
    }
}

/// Inserting keeps a sequence free of duplicates.
pub proof fn lemma_inserted_no_dup(s: Seq<Seq<char>>, x: Seq<char>)
    requires
        s.no_duplicates(),
    ensures
        inserted(s, x).no_duplicates(),
{
    if !s.contains(x) {
        let t = s.push(x);
        assert forall|a: int, b: int| 0 <= a < t.len() && 0 <= b < t.len() && a != b implies t[a] != t[b] by {
            if a == s.len() {
                assert(t[b] == s[b]);
            } else if b == s.len() {
                assert(t[a] == s[a]);
            }
        }
    }
}

/// Collects `v` into an `IndexSet` (`FromIterator`): each string once, at its
/// first position; where `v` has no duplicates, in the order of `v`.
#[verifier::external_body]
pub(crate) fn index_set_from(v: Vec<String>) -> (set: IndexSet<String>)
    ensures
        index_set_items(set).no_duplicates(),
        index_set_items(set).to_set() == strs(v@).to_set(),
        strs(v@).no_duplicates() ==> index_set_items(set) == strs(v@),
{
    v.into_iter().collect()
}

/// `IndexSet::sort`: the same strings, sorted by `Ord for String`.
#[verifier::external_body]
pub(crate) fn index_set_sort(set: &mut IndexSet<String>)
    ensures
        index_set_items(*final(set)).no_duplicates(),
        index_set_items(*final(set)).to_multiset() == index_set_items(*old(set)).to_multiset(),
        sorted_by(index_set_items(*final(set)), str_order()),
{
    set.sort()
}

/// `IndexSet::insert`: appends `value` unless it is there; returns whether it
/// was appended.
#[verifier::external_body]
pub(crate) fn index_set_insert(set: &mut IndexSet<String>, value: String) -> (added: bool)
    ensures
        added == !index_set_items(*old(set)).contains(value@),
        index_set_items(*final(set)) == inserted(index_set_items(*old(set)), value@),
        index_set_items(*final(set)).no_duplicates(),
{
    set.insert(value)
}

/// `IndexSet::swap_remove` (which `IndexSet::remove` is): takes `value` out,
/// moving the last string into its place; returns whether it was there.
#[verifier::external_body]
pub(crate) fn index_set_swap_remove(set: &mut IndexSet<String>, value: &String) -> (removed: bool)
    ensures
        removed == index_set_items(*old(set)).contains(value@),
        index_set_items(*final(set)) == swap_removed(index_set_items(*old(set)), value@),
        index_set_items(*final(set)).no_duplicates(),
{
    set.swap_remove(value)
}

/// The strings of the set, in its order (`iter().cloned().collect()`).
#[verifier::external_body]
pub(crate) fn index_set_strings(set: &IndexSet<String>) -> (v: Vec<String>)
    ensures
        strs(v@) == index_set_items(*set),
{
    set.iter().cloned().collect()
}

} // verus!
