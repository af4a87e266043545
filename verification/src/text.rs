//! Orders and helpers over the characters of strings.
use vstd::prelude::*;
use vstd::relations::*;
use vstd::multiset::Multiset;

verus! {

/// Lexicographic order of two strings by code point, which is the order that
/// `Ord` gives `String` (UTF-8 keeps the order of code points byte by byte).
pub open spec fn str_leq(a: Seq<char>, b: Seq<char>) -> bool
    decreases a.len(),
{
    if a.len() == 0 {
        true
    } else if b.len() == 0 {
        false
    } else if a[0] != b[0] {
        (a[0] as int) < (b[0] as int)
    } else {
        str_leq(a.drop_first(), b.drop_first())
    }
}

/// `str_leq` as a closure, for the sorting predicates of vstd.
pub open spec fn str_order() -> spec_fn(Seq<char>, Seq<char>) -> bool {
    |a: Seq<char>, b: Seq<char>| str_leq(a, b)
}

pub proof fn lemma_str_leq_reflexive(a: Seq<char>)
    ensures
        str_leq(a, a),
    decreases a.len(),
{
    if a.len() > 0 {
        lemma_str_leq_reflexive(a.drop_first());
    }
}

proof fn lemma_str_leq_antisymmetric(a: Seq<char>, b: Seq<char>)
    requires
        str_leq(a, b),
        str_leq(b, a),
    ensures
        a == b,
    decreases a.len(),
{
    if a.len() > 0 && b.len() > 0 {
        if a[0] == b[0] {
            lemma_str_leq_antisymmetric(a.drop_first(), b.drop_first());
            assert(a =~= seq![a[0]] + a.drop_first());
            assert(b =~= seq![b[0]] + b.drop_first());
        }
    }
}

pub proof fn lemma_str_leq_transitive(a: Seq<char>, b: Seq<char>, c: Seq<char>)
    requires
        str_leq(a, b),
        str_leq(b, c),
    ensures
        str_leq(a, c),
    decreases a.len(),
{
    if a.len() > 0 && b.len() > 0 && c.len() > 0 {
        if a[0] == b[0] && b[0] == c[0] {
            lemma_str_leq_transitive(a.drop_first(), b.drop_first(), c.drop_first());
        }
    }
}

pub proof fn lemma_str_leq_total(a: Seq<char>, b: Seq<char>)
    ensures
        str_leq(a, b) || str_leq(b, a),
    decreases a.len(),
{
    if a.len() > 0 && b.len() > 0 && a[0] == b[0] {
        lemma_str_leq_total(a.drop_first(), b.drop_first());
    }
}

/// The order of strings is a total order.
pub proof fn lemma_str_order_total()
    ensures
        total_ordering(str_order()),
{
    assert forall|x: Seq<char>| #[trigger] str_order()(x, x) by {
        lemma_str_leq_reflexive(x);
    }
    assert forall|x: Seq<char>, y: Seq<char>|
        #[trigger] str_order()(x, y) && #[trigger] str_order()(y, x) implies x == y by {
        lemma_str_leq_antisymmetric(x, y);
    }
    assert forall|x: Seq<char>, y: Seq<char>, z: Seq<char>|
        #[trigger] str_order()(x, y) && #[trigger] str_order()(y, z) implies str_order()(x, z) by {
        lemma_str_leq_transitive(x, y, z);
    }
    assert forall|x: Seq<char>, y: Seq<char>|
        #[trigger] str_order()(x, y) || #[trigger] str_order()(y, x) by {
        lemma_str_leq_total(x, y);
    }
}

/// Pushing onto a sequence adds the element to its set.
pub proof fn lemma_push_to_set<A>(s: Seq<A>, x: A)
    ensures
        s.push(x).to_set() == s.to_set().insert(x),
{
    assert forall|y: A| s.push(x).to_set().contains(y) <==> s.to_set().insert(x).contains(y) by {
        if s.push(x).contains(y) {
            let i = choose|i: int| 0 <= i < s.push(x).len() && s.push(x)[i] == y;
            if i < s.len() {
                assert(s[i] == y);
            }
        }
        if s.contains(y) {
            let i = choose|i: int| 0 <= i < s.len() && s[i] == y;
            assert(s.push(x)[i] == y);
        }
        if y == x {
            assert(s.push(x)[s.len() as int] == x);
        }
    }
    assert(s.push(x).to_set() =~= s.to_set().insert(x));
}

/// Two sorted sequences without duplicates that hold the same strings are
/// the same sequence.
pub proof fn lemma_sorted_sets_equal(x: Seq<Seq<char>>, y: Seq<Seq<char>>)
    requires
        x.no_duplicates(),
        y.no_duplicates(),
        x.to_set() == y.to_set(),
        sorted_by(x, str_order()),
        sorted_by(y, str_order()),
    ensures
        x == y,
{
    broadcast use vstd::seq_lib::group_to_multiset_ensures;
    x.lemma_multiset_has_no_duplicates();
    y.lemma_multiset_has_no_duplicates();
    assert forall|a: Seq<char>| x.to_multiset().count(a) == y.to_multiset().count(a) by {
        assert(x.contains(a) <==> x.to_set().contains(a));
        assert(y.contains(a) <==> y.to_set().contains(a));
        if x.contains(a) {
            assert(x.to_multiset().contains(a));
            assert(y.to_multiset().contains(a));
        }
    }
    assert(x.to_multiset() =~= y.to_multiset());
    lemma_str_order_total();
    vstd::seq_lib::lemma_sorted_unique(x, y, str_order());
}

/// A sequence without duplicates that is longer than another holds an
/// element that the other lacks.
pub proof fn lemma_longer_has_other<A>(small: Seq<A>, big: Seq<A>)
    requires
        big.no_duplicates(),
        small.len() < big.len(),
    ensures
        exists|i: int| 0 <= i < big.len() && !small.contains(#[trigger] big[i]),
{
    broadcast use vstd::set::group_set_axioms, vstd::seq_lib::seq_to_set_is_finite;
    if forall|i: int| 0 <= i < big.len() ==> small.contains(#[trigger] big[i]) {
        assert(big.to_set().subset_of(small.to_set())) by {
            assert forall|x: A| big.to_set().contains(x) implies small.to_set().contains(x) by {
                let i = choose|i: int| 0 <= i < big.len() && big[i] == x;
                assert(small.contains(big[i]));
            }
        }
        vstd::set_lib::lemma_len_subset(big.to_set(), small.to_set());
        big.unique_seq_to_set();
        small.lemma_cardinality_of_set();
        assert(false);
    }
}

/// The strings of a vector, each taken by its characters.
pub open spec fn strs(v: Seq<String>) -> Seq<Seq<char>> {
    v.map_values(|s: String| s@)
}

/// An optional string taken by its characters.
pub open spec fn opt_str(o: Option<String>) -> Option<Seq<char>> {
    match o {
        Some(s) => Some(s@),
        None => None,
    }
}

/// In a sequence without duplicates, an element's index is where it stands.
pub proof fn lemma_index_of_unique<A>(s: Seq<A>, i: int)
    requires
        s.no_duplicates(),
        0 <= i < s.len(),
    ensures
        s.index_of(s[i]) == i,
        s.contains(s[i]),
{
    assert(s.contains(s[i]));
}

/// Whether `v` holds a string equal to `s`.
pub fn contains_str(v: &Vec<String>, s: &String) -> (found: bool)
    ensures
        found == strs(v@).contains(s@),
{
    let mut i: usize = 0;
    while i < v.len()
        invariant
            i <= v.len(),
            forall|j: int| 0 <= j < i ==> v@[j]@ != s@,
        decreases v.len() - i,
    {
        if v[i] == *s {
            assert(strs(v@)[i as int] == s@);
            return true;
        }
        i = i + 1;
    }
    assert forall|j: int| 0 <= j < strs(v@).len() implies strs(v@)[j] != s@ by {}
    false
}

/// Whether `a` comes before `b` or equals it (see `str_leq`).
pub fn str_le(a: &String, b: &String) -> (r: bool)
    ensures
        r == str_leq(a@, b@),
{
    let la = a.as_str().unicode_len();
    let lb = b.as_str().unicode_len();
    let mut i: usize = 0;
    assert(a@.skip(0) =~= a@ && b@.skip(0) =~= b@);
    loop
        invariant
            la == a@.len(),
            lb == b@.len(),
            i <= la,
            i <= lb,
            str_leq(a@, b@) == str_leq(a@.skip(i as int), b@.skip(i as int)),
        decreases la - i,
    {
        if i == la {
            return true;
        }
        if i == lb {
            return false;
        }
        let ca = a.as_str().get_char(i);
        let cb = b.as_str().get_char(i);
        assert(a@.skip(i as int)[0] == ca && b@.skip(i as int)[0] == cb);
        if ca != cb {
            return (ca as u32) < (cb as u32);
        }
        assert(a@.skip(i as int).drop_first() =~= a@.skip(i + 1));
        assert(b@.skip(i as int).drop_first() =~= b@.skip(i + 1));
        i = i + 1;
    }
}

/// The index of a least string of `v` (the first of the least ones).
fn index_of_least(v: &Vec<String>) -> (m: usize)
    requires
        v.len() > 0,
    ensures
        m < v.len(),
        forall|j: int| 0 <= j < v.len() ==> str_leq(v@[m as int]@, #[trigger] v@[j]@),
{
    let mut m: usize = 0;
    let mut i: usize = 1;
    proof { lemma_str_leq_reflexive(v@[0]@); }
    while i < v.len()
        invariant
            1 <= i <= v.len(),
            m < i,
            forall|j: int| 0 <= j < i ==> str_leq(v@[m as int]@, #[trigger] v@[j]@),
        decreases v.len() - i,
    {
        if !str_le(&v[m], &v[i]) {
            let ghost old_m = m;
            proof {
                lemma_str_leq_total(v@[m as int]@, v@[i as int]@);
                assert forall|j: int| 0 <= j < i + 1 implies str_leq(v@[i as int]@, #[trigger] v@[j]@) by {
                    if j < i {
                        lemma_str_leq_transitive(v@[i as int]@, v@[old_m as int]@, v@[j]@);
                    } else {
                        lemma_str_leq_reflexive(v@[i as int]@);
                    }
                }
            }
            m = i;
        }
        i = i + 1;
    }
    m
}

/// The strings of `v`, sorted (as `Vec::sort` sorts strings).
pub fn sort_strings(v: Vec<String>) -> (r: Vec<String>)
    ensures
        strs(r@) == strs(v@).sort_by(str_order()),
{
    broadcast use vstd::seq_lib::group_to_multiset_ensures;
    broadcast use vstd::multiset::group_multiset_axioms;
    let ghost orig = strs(v@);
    let mut rest = v;
    let mut out: Vec<String> = Vec::new();
    assert(strs(out@) =~= Seq::<Seq<char>>::empty());
    assert(strs(out@).to_multiset().add(strs(rest@).to_multiset()) =~= orig.to_multiset());
    while rest.len() > 0
        invariant
            strs(out@).to_multiset().add(strs(rest@).to_multiset()) == orig.to_multiset(),
            sorted_by(strs(out@), str_order()),
            forall|i: int, j: int|
                0 <= i < out.len() && 0 <= j < rest.len() ==> str_leq(#[trigger] out@[i]@, #[trigger] rest@[j]@),
        decreases rest.len(),
    {
        let m = index_of_least(&rest);
        let ghost r0 = rest@;
        let ghost o0 = out@;
        let x = rest.remove(m);
        proof {
            assert(strs(rest@) =~= strs(r0).remove(m as int));
            assert(strs(r0)[m as int] == x@);
        }
        out.push(x);
        proof {
            assert(strs(out@) =~= strs(o0).push(x@));
            let a = strs(o0).to_multiset();
            let b = strs(r0).to_multiset();
            vstd::seq_lib::to_multiset_build(strs(o0), x@);
            vstd::seq_lib::to_multiset_remove(strs(r0), m as int);
            assert(strs(r0).contains(x@));
            vstd::seq_lib::to_multiset_contains(strs(r0), x@);
            assert(b.count(x@) > 0);
            assert(a.insert(x@).add(b.remove(x@)) =~= a.add(b));
            assert(strs(out@).to_multiset().add(strs(rest@).to_multiset())
                =~= strs(o0).to_multiset().add(strs(r0).to_multiset()));
            assert forall|i: int, j: int| 0 <= i < strs(out@).len() && 0 <= j < strs(out@).len() && i < j
                implies #[trigger] str_order()(strs(out@)[i], strs(out@)[j]) by {
                if j == o0.len() {
                    assert(str_leq(o0[i]@, r0[m as int]@));
                } else {
                    assert(str_order()(strs(o0)[i], strs(o0)[j]));
                }
            }
            assert forall|i: int, j: int| 0 <= i < out.len() && 0 <= j < rest.len()
                implies str_leq(#[trigger] out@[i]@, #[trigger] rest@[j]@) by {
                let oj = if j < m { j } else { j + 1 };
                assert(rest@[j] == r0[oj]);
                if i == o0.len() {
                    assert(str_leq(r0[m as int]@, r0[oj]@));
                } else {
                    assert(str_leq(o0[i]@, r0[oj]@));
                }
            }
        }
    }
    proof {
        assert(strs(rest@).to_multiset() =~= Multiset::<Seq<char>>::empty());
        assert(strs(out@).to_multiset() =~= orig.to_multiset());
        lemma_str_order_total();
        orig.lemma_sort_by_ensures(str_order());
        vstd::seq_lib::lemma_sorted_unique(strs(out@), orig.sort_by(str_order()), str_order());
    }
    out
}

/// The strings of `parts` with `sep` between each two.
pub open spec fn join(parts: Seq<Seq<char>>, sep: Seq<char>) -> Seq<char>
    decreases parts.len(),
{
    if parts.len() == 0 {
        Seq::empty()
    } else if parts.len() == 1 {
        parts[0]
    } else {
        join(parts.drop_last(), sep) + sep + parts.last()
    }
}

/// The strings of `parts` with `sep` between each two (`[String]::join`).
pub fn join_strings(parts: &Vec<String>, sep: &str) -> (r: String)
    ensures
        r@ == join(strs(parts@), sep@),
{
    let mut r = String::new();
    let mut i: usize = 0;
    while i < parts.len()
        invariant
            i <= parts.len(),
            r@ == join(strs(parts@).take(i as int), sep@),
        decreases parts.len() - i,
    {
        let ghost before = strs(parts@).take(i as int);
        if i > 0 {
            r.append(sep);
        }
        r.append(parts[i].as_str());
        proof {
            let now = strs(parts@).take(i + 1);
            assert(now.drop_last() =~= before);
            assert(now.last() == parts@[i as int]@);
            if i == 0 {
                assert(r@ =~= now[0]);
            }
        }
        i = i + 1;
    }
    assert(strs(parts@).take(parts.len() as int) =~= strs(parts@));
    r
}

} // verus!
