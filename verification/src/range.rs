//! Version ranges of browsers, in the notation of npm's `semver`: a range is
//! one or more alternatives separated by ` || `; an alternative is `*`, a
//! hyphen range `A - B`, or comparators separated by spaces, each an
//! operator (`>=`, `<=`, `>`, `<`, `=`, or none) and a partial version such
//! as `10`, `4.4` or `9.3.1` (`*`, `x` or `X` stand for any number). A range
//! that does not follow the notation matches no version.
use vstd::prelude::*;

verus! {

/// `s` cut at each `sep` (a string without separators gives one piece).
pub open spec fn split_seq<A>(s: Seq<A>, sep: A) -> Seq<Seq<A>>
    decreases s.len(),
{
    if s.len() == 0 {
        seq![Seq::empty()]
    } else {
        let init = split_seq(s.drop_last(), sep);
        if s.last() == sep {
            init.push(Seq::empty())
        } else {
            init.update(init.len() - 1, init.last().push(s.last()))
        }
    }
}

/// The pieces that are not empty.
pub open spec fn nonempty(s: Seq<Seq<char>>) -> Seq<Seq<char>>
    decreases s.len(),
{
    if s.len() == 0 {
        Seq::empty()
    } else if s.last().len() > 0 {
        nonempty(s.drop_last()).push(s.last())
    } else {
        nonempty(s.drop_last())
    }
}

/// The words of `s`: its runs of characters other than spaces.
pub open spec fn words(s: Seq<char>) -> Seq<Seq<char>> {
    nonempty(split_seq(s, ' '))
}

/// The value of a string of decimal digits.
pub open spec fn digits_value(s: Seq<char>) -> int
    decreases s.len(),
{
    if s.len() == 0 {
        0
    } else {
        digits_value(s.drop_last()) * 10 + (s.last() as int - '0' as int)
    }
}

/// Whether `s` is one or more decimal digits.
pub open spec fn all_digits(s: Seq<char>) -> bool {
    s.len() > 0 && forall|i: int| 0 <= i < s.len() ==> '0' <= #[trigger] s[i] <= '9'
}

/// Whether `s` stands for any number.
pub open spec fn is_wild(s: Seq<char>) -> bool {
    s.len() == 1 && (s[0] == '*' || s[0] == 'x' || s[0] == 'X')
}

/// A component of a partial version: `Some(None)` for a wildcard,
/// `Some(Some(n))` for a number that fits a `u64`, `None` otherwise.
pub open spec fn component(s: Seq<char>) -> Option<Option<int>> {
    if is_wild(s) {
        Some(None)
    } else if all_digits(s) && digits_value(s) <= u64::MAX {
        Some(Some(digits_value(s)))
    } else {
        None
    }
}

/// A partial version: how many leading components are numbers (0 to 3),
/// and those numbers (0 where missing).
pub struct PartialVersion {
    pub given: nat,
    pub major: int,
    pub minor: int,
    pub patch: int,
}

/// The component at `i` of `comps`, a wildcard where missing.
pub open spec fn component_at(comps: Seq<Seq<char>>, i: int) -> Option<Option<int>> {
    if i < comps.len() {
        component(comps[i])
    } else {
        Some(None)
    }
}

/// The partial version that `s` writes, if it writes one: at most three
/// components separated by dots, no number after a wildcard.
pub open spec fn partial_version(s: Seq<char>) -> Option<PartialVersion> {
    let comps = split_seq(s, '.');
    if comps.len() > 3 {
        None
    } else {
        match (component_at(comps, 0), component_at(comps, 1), component_at(comps, 2)) {
            (Some(None), Some(None), Some(None)) => Some(PartialVersion { given: 0, major: 0, minor: 0, patch: 0 }),
            (Some(Some(x)), Some(None), Some(None)) => Some(PartialVersion { given: 1, major: x, minor: 0, patch: 0 }),
            (Some(Some(x)), Some(Some(y)), Some(None)) => Some(PartialVersion { given: 2, major: x, minor: y, patch: 0 }),
            (Some(Some(x)), Some(Some(y)), Some(Some(z))) => Some(PartialVersion { given: 3, major: x, minor: y, patch: z }),
            _ => None,
        }
    }
}

/// Lexicographic order of versions.
pub open spec fn version_lt(a: (int, int, int), b: (int, int, int)) -> bool {
    a.0 < b.0 || (a.0 == b.0 && (a.1 < b.1 || (a.1 == b.1 && a.2 < b.2)))
}

/// The least version of `p` (missing components 0).
pub open spec fn floor_of(p: PartialVersion) -> (int, int, int) {
    (p.major, p.minor, p.patch)
}

/// The least version above every version of `p` (the next major or minor
/// for a partial version).
pub open spec fn ceiling_of(p: PartialVersion) -> (int, int, int) {
    if p.given == 1 {
        (p.major + 1, 0, 0)
    } else {
        (p.major, p.minor + 1, 0)
    }
}

/// Whether `v` is at or above the lower end `p` of a range.
pub open spec fn at_least(v: (int, int, int), p: PartialVersion) -> bool {
    p.given == 0 || !version_lt(v, floor_of(p))
}

/// Whether `v` is at or below the upper end `p` of a range.
pub open spec fn at_most(v: (int, int, int), p: PartialVersion) -> bool {
    if p.given == 0 {
        true
    } else if p.given == 3 {
        !version_lt(floor_of(p), v)
    } else {
        version_lt(v, ceiling_of(p))
    }
}

/// Whether `v` is above every version of `p`.
pub open spec fn above(v: (int, int, int), p: PartialVersion) -> bool {
    if p.given == 0 {
        false
    } else if p.given == 3 {
        version_lt(floor_of(p), v)
    } else {
        !version_lt(v, ceiling_of(p))
    }
}

/// Whether `v` is below every version of `p`.
pub open spec fn below(v: (int, int, int), p: PartialVersion) -> bool {
    p.given > 0 && version_lt(v, floor_of(p))
}

/// The operator of a comparator.
pub enum Op {
    Ge,
    Le,
    Gt,
    Lt,
    Eq,
}

/// The operator at the start of a comparator word, and the rest of it.
pub open spec fn split_op(w: Seq<char>) -> (Op, Seq<char>) {
    if w.len() >= 2 && w[0] == '>' && w[1] == '=' {
        (Op::Ge, w.skip(2))
    } else if w.len() >= 2 && w[0] == '<' && w[1] == '=' {
        (Op::Le, w.skip(2))
    } else if w.len() >= 1 && w[0] == '>' {
        (Op::Gt, w.skip(1))
    } else if w.len() >= 1 && w[0] == '<' {
        (Op::Lt, w.skip(1))
    } else if w.len() >= 1 && w[0] == '=' {
        (Op::Eq, w.skip(1))
    } else {
        (Op::Eq, w)
    }
}

/// Whether `v` satisfies operator `op` against `p`.
pub open spec fn satisfies_op(v: (int, int, int), op: Op, p: PartialVersion) -> bool {
    match op {
        Op::Ge => at_least(v, p),
        Op::Le => at_most(v, p),
        Op::Gt => above(v, p),
        Op::Lt => below(v, p),
        Op::Eq => at_least(v, p) && at_most(v, p),
    }
}

/// Whether `v` satisfies one comparator word; `None` where the word is not
/// a comparator.
pub open spec fn comparator(v: (int, int, int), w: Seq<char>) -> Option<bool> {
    let (op, rest) = split_op(w);
    match partial_version(rest) {
        Some(p) => Some(satisfies_op(v, op, p)),
        None => None,
    }
}

/// Whether `v` satisfies all comparator words of `ws`; `None` where one is
/// not a comparator.
pub open spec fn comparators(v: (int, int, int), ws: Seq<Seq<char>>) -> Option<bool>
    decreases ws.len(),
{
    if ws.len() == 0 {
        Some(true)
    } else {
        match (comparators(v, ws.drop_last()), comparator(v, ws.last())) {
            (Some(a), Some(b)) => Some(a && b),
            _ => None,
        }
    }
}

/// Whether `v` satisfies one alternative, given by its words; `None` where
/// it does not follow the notation.
pub open spec fn alternative(v: (int, int, int), ws: Seq<Seq<char>>) -> Option<bool> {
    if ws.len() == 3 && ws[1] == seq!['-'] {
        match (partial_version(ws[0]), partial_version(ws[2])) {
            (Some(a), Some(b)) => Some(at_least(v, a) && at_most(v, b)),
            _ => None,
        }
    } else {
        comparators(v, ws)
    }
}

/// Folds the alternatives: whether all follow the notation, and whether
/// one is satisfied.
pub open spec fn alternatives(v: (int, int, int), groups: Seq<Seq<Seq<char>>>) -> (bool, bool)
    decreases groups.len(),
{
    if groups.len() == 0 {
        (true, false)
    } else {
        let prev = alternatives(v, groups.drop_last());
        match alternative(v, groups.last()) {
            Some(b) => (prev.0, prev.1 || b),
            None => (false, prev.1),
        }
    }
}

/// Whether version `(major, minor, patch)` lies in `range`.
pub open spec fn version_in_range(major: u64, minor: u64, patch: u64, range: Seq<char>) -> bool {
    let r = alternatives((major as int, minor as int, patch as int), split_seq(words(range), seq!['|', '|']));
    r.0 && r.1
}

/// The characters of each piece.
pub open spec fn char_pieces(v: Seq<Vec<char>>) -> Seq<Seq<char>> {
    v.map_values(|p: Vec<char>| p@)
}

/// The words of each group.
pub open spec fn word_groups(v: Seq<Vec<Vec<char>>>) -> Seq<Seq<Seq<char>>> {
    v.map_values(|g: Vec<Vec<char>>| char_pieces(g@))
}

fn chars_of(s: &String) -> (v: Vec<char>)
    ensures
        v@ == s@,
{
    let n = s.as_str().unicode_len();
    let mut v: Vec<char> = Vec::new();
    let mut i: usize = 0;
    while i < n
        invariant
            n == s@.len(),
            i <= n,
            v@ == s@.take(i as int),
        decreases n - i,
    {
        let c = s.as_str().get_char(i);
        v.push(c);
        assert(v@ =~= s@.take(i + 1));
        i = i + 1;
    }
    assert(s@.take(n as int) =~= s@);
    v
}

fn copy_chars(v: &Vec<char>) -> (r: Vec<char>)
    ensures
        r@ == v@,
{
    let mut r: Vec<char> = Vec::new();
    let mut i: usize = 0;
    while i < v.len()
        invariant
            i <= v.len(),
            r@ == v@.take(i as int),
        decreases v.len() - i,
    {
        r.push(v[i]);
        assert(r@ =~= v@.take(i + 1));
        i = i + 1;
    }
    assert(v@.take(v.len() as int) =~= v@);
    r
}

fn copy_chars_from(v: &Vec<char>, from: usize) -> (r: Vec<char>)
    requires
        from <= v.len(),
    ensures
        r@ == v@.skip(from as int),
{
    let mut r: Vec<char> = Vec::new();
    let mut i: usize = from;
    while i < v.len()
        invariant
            from <= i <= v.len(),
            r@ == v@.subrange(from as int, i as int),
        decreases v.len() - i,
    {
        r.push(v[i]);
        assert(r@ =~= v@.subrange(from as int, i + 1));
        i = i + 1;
    }
    assert(v@.subrange(from as int, v.len() as int) =~= v@.skip(from as int));
    r
}

fn split_chars(v: &Vec<char>, sep: char) -> (r: Vec<Vec<char>>)
    ensures
        char_pieces(r@) == split_seq(v@, sep),
{
    let mut done: Vec<Vec<char>> = Vec::new();
    let mut cur: Vec<char> = Vec::new();
    let mut i: usize = 0;
    assert(v@.take(0) =~= Seq::<char>::empty());
    assert(char_pieces(done@).push(cur@) =~= seq![Seq::<char>::empty()]);
    while i < v.len()
        invariant
            i <= v.len(),
            char_pieces(done@).push(cur@) == split_seq(v@.take(i as int), sep),
        decreases v.len() - i,
    {
        let ghost d0 = char_pieces(done@);
        let ghost c0 = cur@;
        assert(v@.take(i + 1).drop_last() =~= v@.take(i as int));
        assert(v@.take(i + 1).last() == v@[i as int]);
        if v[i] == sep {
            let piece = cur;
            done.push(piece);
            cur = Vec::new();
            assert(char_pieces(done@) =~= d0.push(c0));
            assert(char_pieces(done@).push(cur@) =~= d0.push(c0).push(Seq::<char>::empty()));
        } else {
            cur.push(v[i]);
            assert(char_pieces(done@).push(cur@) =~= d0.push(c0).update(d0.len() as int, c0.push(v@[i as int])));
        }
        i = i + 1;
    }
    assert(v@.take(v.len() as int) =~= v@);
    let ghost d1 = char_pieces(done@);
    let ghost c1 = cur@;
    done.push(cur);
    assert(char_pieces(done@) =~= d1.push(c1));
    done
}

fn nonempty_pieces(v: &Vec<Vec<char>>) -> (r: Vec<Vec<char>>)
    ensures
        char_pieces(r@) == nonempty(char_pieces(v@)),
{
    let mut r: Vec<Vec<char>> = Vec::new();
    let mut i: usize = 0;
    assert(char_pieces(v@).take(0) =~= Seq::<Seq<char>>::empty());
    assert(char_pieces(r@) =~= Seq::<Seq<char>>::empty());
    while i < v.len()
        invariant
            i <= v.len(),
            char_pieces(r@) == nonempty(char_pieces(v@).take(i as int)),
        decreases v.len() - i,
    {
        let ghost r0 = char_pieces(r@);
        assert(char_pieces(v@).take(i + 1).drop_last() =~= char_pieces(v@).take(i as int));
        assert(char_pieces(v@).take(i + 1).last() == v@[i as int]@);
        if v[i].len() > 0 {
            let w = copy_chars(&v[i]);
            r.push(w);
            assert(char_pieces(r@) =~= r0.push(v@[i as int]@));
        }
        i = i + 1;
    }
    assert(char_pieces(v@).take(v.len() as int) =~= char_pieces(v@));
    r
}

fn copy_words(v: &Vec<Vec<char>>) -> (r: Vec<Vec<char>>)
    ensures
        char_pieces(r@) == char_pieces(v@),
{
    let mut r: Vec<Vec<char>> = Vec::new();
    let mut i: usize = 0;
    while i < v.len()
        invariant
            i <= v.len(),
            char_pieces(r@) == char_pieces(v@).take(i as int),
        decreases v.len() - i,
    {
        let ghost r0 = char_pieces(r@);
        r.push(copy_chars(&v[i]));
        assert(char_pieces(r@) =~= r0.push(v@[i as int]@));
        assert(char_pieces(v@).take(i + 1) =~= char_pieces(v@).take(i as int).push(v@[i as int]@));
        i = i + 1;
    }
    assert(char_pieces(v@).take(v.len() as int) =~= char_pieces(v@));
    r
}

fn is_or(w: &Vec<char>) -> (r: bool)
    ensures
        r == (w@ == seq!['|', '|']),
{
    let r = w.len() == 2 && w[0] == '|' && w[1] == '|';
    if r {
        assert(w@ =~= seq!['|', '|']);
    }
    r
}

fn split_groups(ws: &Vec<Vec<char>>) -> (r: Vec<Vec<Vec<char>>>)
    ensures
        word_groups(r@) == split_seq(char_pieces(ws@), seq!['|', '|']),
{
    let ghost sep = seq!['|', '|'];
    let mut done: Vec<Vec<Vec<char>>> = Vec::new();
    let mut cur: Vec<Vec<char>> = Vec::new();
    let mut i: usize = 0;
    assert(char_pieces(ws@).take(0) =~= Seq::<Seq<char>>::empty());
    assert(char_pieces(cur@) =~= Seq::<Seq<char>>::empty());
    assert(word_groups(done@) =~= Seq::<Seq<Seq<char>>>::empty());
    assert(word_groups(done@).push(char_pieces(cur@)) =~= seq![Seq::<Seq<char>>::empty()]);
    while i < ws.len()
        invariant
            i <= ws.len(),
            sep == seq!['|', '|'],
            word_groups(done@).push(char_pieces(cur@)) == split_seq(char_pieces(ws@).take(i as int), sep),
        decreases ws.len() - i,
    {
        let ghost d0 = word_groups(done@);
        let ghost c0 = char_pieces(cur@);
        assert(char_pieces(ws@).take(i + 1).drop_last() =~= char_pieces(ws@).take(i as int));
        assert(char_pieces(ws@).take(i + 1).last() == ws@[i as int]@);
        if is_or(&ws[i]) {
            let g = cur;
            done.push(g);
            cur = Vec::new();
            assert(word_groups(done@) =~= d0.push(c0));
            assert(char_pieces(cur@) =~= Seq::<Seq<char>>::empty());
            assert(word_groups(done@).push(char_pieces(cur@)) =~= d0.push(c0).push(Seq::<Seq<char>>::empty()));
        } else {
            cur.push(copy_chars(&ws[i]));
            assert(char_pieces(cur@) =~= c0.push(ws@[i as int]@));
            assert(word_groups(done@).push(char_pieces(cur@)) =~= d0.push(c0).update(d0.len() as int, c0.push(ws@[i as int]@)));
        }
        i = i + 1;
    }
    assert(char_pieces(ws@).take(ws.len() as int) =~= char_pieces(ws@));
    let ghost d1 = word_groups(done@);
    let ghost c1 = char_pieces(cur@);
    done.push(cur);
    assert(word_groups(done@) =~= d1.push(c1));
    done
}

/// A longer string of digits has at least the value of its prefix.
proof fn lemma_digits_prefix(s: Seq<char>, k: int)
    requires
        forall|i: int| 0 <= i < s.len() ==> '0' <= #[trigger] s[i] <= '9',
        0 <= k <= s.len(),
    ensures
        0 <= digits_value(s.take(k)) <= digits_value(s),
    decreases s.len(),
{
    if s.len() > 0 {
        if k == s.len() {
            assert(s.take(k) =~= s);
            lemma_digits_prefix(s.drop_last(), k - 1);
            assert(s.drop_last().take(k - 1) =~= s.drop_last());
        } else {
            lemma_digits_prefix(s.drop_last(), k);
            assert(s.drop_last().take(k) =~= s.take(k));
            lemma_digits_prefix(s.drop_last(), s.len() - 1);
            assert(s.drop_last().take(s.len() - 1) =~= s.drop_last());
        }
    } else {
        assert(s.take(k) =~= s);
    }
}

/// The view of a parsed component.
pub open spec fn component_view(r: Option<Option<u64>>) -> Option<Option<int>> {
    match r {
        Some(Some(n)) => Some(Some(n as int)),
        Some(None) => Some(None),
        None => None,
    }
}

fn parse_component(w: &Vec<char>) -> (r: Option<Option<u64>>)
    ensures
        component_view(r) == component(w@),
{
    if w.len() == 1 && (w[0] == '*' || w[0] == 'x' || w[0] == 'X') {
        return Some(None);
    }
    if w.len() == 0 {
        return None;
    }
    assert(!is_wild(w@));
    let mut i: usize = 0;
    while i < w.len()
        invariant
            i <= w.len(),
            !is_wild(w@),
            forall|j: int| 0 <= j < i ==> '0' <= #[trigger] w@[j] <= '9',
        decreases w.len() - i,
    {
        if w[i] < '0' || w[i] > '9' {
            assert(!all_digits(w@));
            return None;
        }
        i = i + 1;
    }
    assert(all_digits(w@));
    let mut acc: u64 = 0;
    let mut i: usize = 0;
    assert(w@.take(0) =~= Seq::<char>::empty());
    while i < w.len()
        invariant
            i <= w.len(),
            forall|j: int| 0 <= j < w@.len() ==> '0' <= #[trigger] w@[j] <= '9',
            acc == digits_value(w@.take(i as int)),
        decreases w.len() - i,
    {
        let c = w[i];
        let d: u64 = ((c as u32) - ('0' as u32)) as u64;
        assert(w@.take(i + 1).drop_last() =~= w@.take(i as int));
        assert(w@.take(i + 1).last() == c);
        let next: u128 = (acc as u128) * 10 + (d as u128);
        if next > (u64::MAX as u128) {
            proof {
                lemma_digits_prefix(w@, i + 1);
            }
            return None;
        }
        acc = next as u64;
        i = i + 1;
    }
    assert(w@.take(w.len() as int) =~= w@);
    Some(Some(acc))
}

/// A partial version in executable form.
pub struct Partial {
    pub given: u8,
    pub major: u64,
    pub minor: u64,
    pub patch: u64,
}

impl View for Partial {
    type V = PartialVersion;

    open spec fn view(&self) -> PartialVersion {
        PartialVersion {
            given: self.given as nat,
            major: self.major as int,
            minor: self.minor as int,
            patch: self.patch as int,
        }
    }
}

/// The partial version, where the word writes one.
pub open spec fn partial_view(r: Option<Partial>) -> Option<PartialVersion> {
    match r {
        Some(p) => Some(p@),
        None => None,
    }
}

fn parse_partial(w: &Vec<char>) -> (r: Option<Partial>)
    ensures
        partial_view(r) == partial_version(w@),
{
    let comps = split_chars(w, '.');
    if comps.len() > 3 {
        return None;
    }
    let c0 = if 0 < comps.len() { parse_component(&comps[0]) } else { Some(None) };
    let c1 = if 1 < comps.len() { parse_component(&comps[1]) } else { Some(None) };
    let c2 = if 2 < comps.len() { parse_component(&comps[2]) } else { Some(None) };
    assert(component_view(c0) == component_at(split_seq(w@, '.'), 0));
    assert(component_view(c1) == component_at(split_seq(w@, '.'), 1));
    assert(component_view(c2) == component_at(split_seq(w@, '.'), 2));
    match (c0, c1, c2) {
        (Some(None), Some(None), Some(None)) => Some(Partial { given: 0, major: 0, minor: 0, patch: 0 }),
        (Some(Some(x)), Some(None), Some(None)) => Some(Partial { given: 1, major: x, minor: 0, patch: 0 }),
        (Some(Some(x)), Some(Some(y)), Some(None)) => Some(Partial { given: 2, major: x, minor: y, patch: 0 }),
        (Some(Some(x)), Some(Some(y)), Some(Some(z))) => Some(Partial { given: 3, major: x, minor: y, patch: z }),
        _ => None,
    }
}

fn parse_op(w: &Vec<char>) -> (r: (Op, Vec<char>))
    ensures
        (r.0, r.1@) == split_op(w@),
{
    if w.len() >= 2 && w[0] == '>' && w[1] == '=' {
        (Op::Ge, copy_chars_from(w, 2))
    } else if w.len() >= 2 && w[0] == '<' && w[1] == '=' {
        (Op::Le, copy_chars_from(w, 2))
    } else if w.len() >= 1 && w[0] == '>' {
        (Op::Gt, copy_chars_from(w, 1))
    } else if w.len() >= 1 && w[0] == '<' {
        (Op::Lt, copy_chars_from(w, 1))
    } else if w.len() >= 1 && w[0] == '=' {
        (Op::Eq, copy_chars_from(w, 1))
    } else {
        let r = copy_chars_from(w, 0);
        assert(w@.skip(0) =~= w@);
        (Op::Eq, r)
    }
}

/// The version `(major, minor, patch)` as integers.
pub open spec fn triple(major: u64, minor: u64, patch: u64) -> (int, int, int) {
    (major as int, minor as int, patch as int)
}

fn lt_floor(v: (u64, u64, u64), p: &Partial) -> (r: bool)
    ensures
        r == version_lt(triple(v.0, v.1, v.2), floor_of(p@)),
{
    v.0 < p.major || (v.0 == p.major && (v.1 < p.minor || (v.1 == p.minor && v.2 < p.patch)))
}

fn lt_ceiling(v: (u64, u64, u64), p: &Partial) -> (r: bool)
    requires
        p.given == 1 || p.given == 2,
    ensures
        r == version_lt(triple(v.0, v.1, v.2), ceiling_of(p@)),
{
    if p.given == 1 {
        v.0 <= p.major
    } else {
        v.0 < p.major || (v.0 == p.major && v.1 <= p.minor)
    }
}

fn at_least_exec(v: (u64, u64, u64), p: &Partial) -> (r: bool)
    ensures
        r == at_least(triple(v.0, v.1, v.2), p@),
{
    p.given == 0 || !lt_floor(v, p)
}

fn at_most_exec(v: (u64, u64, u64), p: &Partial) -> (r: bool)
    requires
        p.given <= 3,
    ensures
        r == at_most(triple(v.0, v.1, v.2), p@),
{
    if p.given == 0 {
        true
    } else if p.given == 3 {
        !(p.major < v.0 || (p.major == v.0 && (p.minor < v.1 || (p.minor == v.1 && p.patch < v.2))))
    } else {
        lt_ceiling(v, p)
    }
}

fn above_exec(v: (u64, u64, u64), p: &Partial) -> (r: bool)
    requires
        p.given <= 3,
    ensures
        r == above(triple(v.0, v.1, v.2), p@),
{
    if p.given == 0 {
        false
    } else if p.given == 3 {
        p.major < v.0 || (p.major == v.0 && (p.minor < v.1 || (p.minor == v.1 && p.patch < v.2)))
    } else {
        !lt_ceiling(v, p)
    }
}

fn comparator_exec(v: (u64, u64, u64), w: &Vec<char>) -> (r: Option<bool>)
    ensures
        r == comparator(triple(v.0, v.1, v.2), w@),
{
    let (op, rest) = parse_op(w);
    match parse_partial(&rest) {
        Some(p) => {
            assert(p.given <= 3);
            let b = match op {
                Op::Ge => at_least_exec(v, &p),
                Op::Le => at_most_exec(v, &p),
                Op::Gt => above_exec(v, &p),
                Op::Lt => p.given > 0 && lt_floor(v, &p),
                Op::Eq => at_least_exec(v, &p) && at_most_exec(v, &p),
            };
            Some(b)
        },
        None => None,
    }
}

fn alternative_exec(v: (u64, u64, u64), ws: &Vec<Vec<char>>) -> (r: Option<bool>)
    ensures
        r == alternative(triple(v.0, v.1, v.2), char_pieces(ws@)),
{
    let ghost vv = triple(v.0, v.1, v.2);
    if ws.len() == 3 && ws[1].len() == 1 && ws[1][0] == '-' {
        assert(char_pieces(ws@)[1] =~= seq!['-']);
        return match (parse_partial(&ws[0]), parse_partial(&ws[2])) {
            (Some(a), Some(b)) => Some(at_least_exec(v, &a) && at_most_exec(v, &b)),
            _ => None,
        };
    }
    if ws.len() == 3 {
        assert(char_pieces(ws@)[1] != seq!['-']) by {
            if char_pieces(ws@)[1] == seq!['-'] {
                assert(ws@[1]@.len() == 1 && ws@[1]@[0] == '-');
            }
        }
    }
    let mut acc: Option<bool> = Some(true);
    let mut i: usize = 0;
    assert(char_pieces(ws@).take(0) =~= Seq::<Seq<char>>::empty());
    while i < ws.len()
        invariant
            i <= ws.len(),
            vv == triple(v.0, v.1, v.2),
            acc == comparators(vv, char_pieces(ws@).take(i as int)),
        decreases ws.len() - i,
    {
        assert(char_pieces(ws@).take(i + 1).drop_last() =~= char_pieces(ws@).take(i as int));
        assert(char_pieces(ws@).take(i + 1).last() == ws@[i as int]@);
        let c = comparator_exec(v, &ws[i]);
        acc = match (acc, c) {
            (Some(a), Some(b)) => Some(a && b),
            _ => None,
        };
        i = i + 1;
    }
    assert(char_pieces(ws@).take(ws.len() as int) =~= char_pieces(ws@));
    acc
}

/// Whether version `(major, minor, patch)` lies in `range` (see
/// `version_in_range`).
pub fn range_satisfied(major: u64, minor: u64, patch: u64, range: &String) -> (r: bool)
    ensures
        r == version_in_range(major, minor, patch, range@),
{
    let ghost vv = triple(major, minor, patch);
    let chars = chars_of(range);
    let pieces = split_chars(&chars, ' ');
    let words = nonempty_pieces(&pieces);
    let groups = split_groups(&words);
    let mut valid = true;
    let mut hit = false;
    let mut i: usize = 0;
    assert(word_groups(groups@).take(0) =~= Seq::<Seq<Seq<char>>>::empty());
    while i < groups.len()
        invariant
            i <= groups.len(),
            vv == triple(major, minor, patch),
            (valid, hit) == alternatives(vv, word_groups(groups@).take(i as int)),
        decreases groups.len() - i,
    {
        assert(word_groups(groups@).take(i + 1).drop_last() =~= word_groups(groups@).take(i as int));
        assert(word_groups(groups@).take(i + 1).last() == char_pieces(groups@[i as int]@));
        match alternative_exec((major, minor, patch), &groups[i]) {
            Some(b) => {
                hit = hit || b;
            },
            None => {
                valid = false;
            },
        }
        i = i + 1;
    }
    assert(word_groups(groups@).take(groups.len() as int) =~= word_groups(groups@));
    valid && hit
}

/// A hyphen range `A - B` admits exactly what `>=A <=B` admits: its upper
/// end is inclusive, and a range with an ill-formed end admits nothing.
pub proof fn lemma_hyphen_is_bounds(v: (int, int, int), a: Seq<char>, b: Seq<char>)
    ensures
        alternative(v, seq![a, seq!['-'], b]) == comparators(v, seq![seq!['>', '='] + a, seq!['<', '='] + b]),
{
    let ge = seq!['>', '='] + a;
    let le = seq!['<', '='] + b;
    assert(ge.skip(2) =~= a);
    assert(le.skip(2) =~= b);
    assert(split_op(ge) == (Op::Ge, a));
    assert(split_op(le) == (Op::Le, b));
    let ws = seq![ge, le];
    assert(ws.drop_last() =~= seq![ge]);
    assert(seq![ge].drop_last() =~= Seq::<Seq<char>>::empty());
    assert(comparators(v, seq![ge]) == (match (comparators(v, Seq::<Seq<char>>::empty()), comparator(v, ge)) {
        (Some(x), Some(y)) => Some(x && y),
        _ => None,
    }));
}

/// The wildcard range `*` admits every version.
pub proof fn lemma_wildcard_admits_all(major: u64, minor: u64, patch: u64)
    ensures
        version_in_range(major, minor, patch, "*"@),
{
    reveal_strlit("*");
    let star = seq!['*'];
    assert("*"@ =~= star);
    let v = (major as int, minor as int, patch as int);
    assert(star.drop_last() =~= Seq::<char>::empty());
    assert(split_seq(Seq::<char>::empty(), ' ') == seq![Seq::<char>::empty()]);
    assert(split_seq(star, ' ') =~= seq![star]);
    let single = seq![star];
    assert(single.drop_last() =~= Seq::<Seq<char>>::empty());
    assert(nonempty(Seq::<Seq<char>>::empty()) == Seq::<Seq<char>>::empty());
    assert(single.last() == star);
    assert(nonempty(single) =~= single);
    assert(words(star) =~= single);
    let sep = seq!['|', '|'];
    assert(split_seq(Seq::<Seq<char>>::empty(), sep) == seq![Seq::<Seq<char>>::empty()]);
    assert(split_seq(single, sep) =~= seq![single]);
    assert(split_seq(Seq::<char>::empty(), '.') == seq![Seq::<char>::empty()]);
    assert(star.last() == '*');
    assert(split_seq(star, '.') =~= seq![star]);
    assert(is_wild(star));
    assert(partial_version(star) == Some(PartialVersion { given: 0, major: 0, minor: 0, patch: 0 }));
    assert(split_op(star) == (Op::Eq, star));
    assert(comparator(v, star) == Some(true));
    assert(comparators(v, Seq::<Seq<char>>::empty()) == Some(true));
    assert(comparators(v, single) == Some(true));
    assert(alternative(v, single) == Some(true));
    let groups = seq![single];
    assert(groups.drop_last() =~= Seq::<Seq<Seq<char>>>::empty());
    assert(alternatives(v, Seq::<Seq<Seq<char>>>::empty()) == (true, false));
    assert(groups.last() == single);
    assert(alternatives(v, groups) == (true, true));
}

/// The upper end of `<=` is the ceiling of a partial version: `<=w`, with
/// `w` a partial version of one or two components, admits every version
/// that has `w`'s major (and, with two components, its minor), whatever
/// its further components; and no version (of components at least 0) at or
/// above the next major or minor.
pub proof fn lemma_partial_upper_end(v: (int, int, int), w: Seq<char>)
    requires
        partial_version(w) is Some,
        1 <= partial_version(w)->0.given <= 2,
    ensures
        v.0 == partial_version(w)->0.major && (partial_version(w)->0.given == 2 ==> v.1 == partial_version(w)->0.minor)
            ==> comparator(v, seq!['<', '='] + w) == Some(true),
        partial_version(w)->0.given == 1 && v.0 > partial_version(w)->0.major && v.1 >= 0 && v.2 >= 0
            ==> comparator(v, seq!['<', '='] + w) == Some(false),
        partial_version(w)->0.given == 2 && v.0 == partial_version(w)->0.major && v.1 > partial_version(w)->0.minor
            && v.2 >= 0 ==> comparator(v, seq!['<', '='] + w) == Some(false),
{
    let le = seq!['<', '='] + w;
    let p = partial_version(w)->0;
    assert(le.skip(2) =~= w);
    assert(split_op(le) == (Op::Le, w));
    assert(comparator(v, le) == Some(at_most(v, p)));
}

/// The upper end of a hyphen range is the ceiling of a partial version too:
/// `a - w`, with `w` of one or two components, admits every version that
/// `>=a` admits and that has `w`'s major (and, with two components, its
/// minor), whatever its further components.
pub proof fn lemma_hyphen_partial_upper_end(v: (int, int, int), a: Seq<char>, w: Seq<char>)
    requires
        partial_version(w) is Some,
        1 <= partial_version(w)->0.given <= 2,
        comparator(v, seq!['>', '='] + a) == Some(true),
        v.0 == partial_version(w)->0.major,
        partial_version(w)->0.given == 2 ==> v.1 == partial_version(w)->0.minor,
    ensures
        alternative(v, seq![a, seq!['-'], w]) == Some(true),
{
    lemma_hyphen_is_bounds(v, a, w);
    lemma_partial_upper_end(v, w);
    let ge = seq!['>', '='] + a;
    let le = seq!['<', '='] + w;
    let ws = seq![ge, le];
    assert(ws.drop_last() =~= seq![ge]);
    assert(seq![ge].drop_last() =~= Seq::<Seq<char>>::empty());
    assert(comparators(v, seq![ge]) == (match (comparators(v, Seq::<Seq<char>>::empty()), comparator(v, ge)) {
        (Some(x), Some(y)) => Some(x && y),
        _ => None,
    }));
    assert(ws.last() == le);
    assert(comparators(v, ws) == Some(true));
}

/// Whether `v` agrees with `p` on the components that `p` gives.
pub open spec fn agrees(v: (int, int, int), p: PartialVersion) -> bool {
    &&& (p.given >= 1 ==> v.0 == p.major)
    &&& (p.given >= 2 ==> v.1 == p.minor)
    &&& (p.given >= 3 ==> v.2 == p.patch)
}

/// A partial version stands for every version that agrees with it on the
/// components it gives: `=w`, `>=w` and `<=w` admit each of them, `>w` and
/// `<w` none.
pub proof fn lemma_partial_version_covers(v: (int, int, int), w: Seq<char>)
    requires
        partial_version(w) is Some,
        agrees(v, partial_version(w)->0),
        0 <= v.0,
        0 <= v.1,
        0 <= v.2,
    ensures
        comparator(v, seq!['='] + w) == Some(true),
        comparator(v, seq!['>', '='] + w) == Some(true),
        comparator(v, seq!['<', '='] + w) == Some(true),
        w[0] != '=' ==> comparator(v, seq!['>'] + w) == Some(false),
        w[0] != '=' ==> comparator(v, seq!['<'] + w) == Some(false),
{
    let p = partial_version(w)->0;
    let eq = seq!['='] + w;
    let ge = seq!['>', '='] + w;
    let le = seq!['<', '='] + w;
    let gt = seq!['>'] + w;
    let lt = seq!['<'] + w;
    assert(eq.skip(1) =~= w);
    assert(ge.skip(2) =~= w);
    assert(le.skip(2) =~= w);
    assert(gt.skip(1) =~= w);
    assert(lt.skip(1) =~= w);
    assert(split_op(eq) == (Op::Eq, w));
    assert(split_op(ge) == (Op::Ge, w));
    assert(split_op(le) == (Op::Le, w));
    assert(comparator(v, eq) == Some(at_least(v, p) && at_most(v, p)));
    assert(comparator(v, ge) == Some(at_least(v, p)));
    assert(comparator(v, le) == Some(at_most(v, p)));
    if w[0] != '=' {
        assert(gt[1] == w[0]);
        assert(split_op(gt) == (Op::Gt, w));
        assert(split_op(lt) == (Op::Lt, w));
        assert(comparator(v, gt) == Some(above(v, p)));
        assert(comparator(v, lt) == Some(below(v, p)));
    }
}

} // verus!
