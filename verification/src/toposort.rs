//! Orders polyfills so that each comes after the polyfills it depends on.
//!
//! The order is built greedily: at each step the first node (in the order
//! of the nodes given) whose predecessors are all placed is placed next.
use vstd::prelude::*;
use crate::text::{strs, contains_str, lemma_longer_has_other};

verus! {

/// Why no order could be made.
#[derive(Debug)]
pub enum ToposortError {
    /// An edge names a node that is not among the nodes.
    UnknownNode,
    /// The edges have a cycle.
    Cyclic,
}

/// The edges `(from, to)`: `from` must come before `to`.
pub open spec fn pairs(edges: Seq<(String, String)>) -> Seq<(Seq<char>, Seq<char>)> {
    edges.map_values(|e: (String, String)| (e.0@, e.1@))
}

/// Whether `n` may be placed after `placed`: it is not placed yet and each
/// of its predecessors is.
pub open spec fn ready(edges: Seq<(Seq<char>, Seq<char>)>, placed: Seq<Seq<char>>, n: Seq<char>) -> bool {
    &&& !placed.contains(n)
    &&& forall|k: int| 0 <= k < edges.len() && #[trigger] edges[k].1 == n ==> placed.contains(edges[k].0)
}

/// The first index from `j` on of a node that may be placed.
pub open spec fn first_ready_from(
    nodes: Seq<Seq<char>>,
    edges: Seq<(Seq<char>, Seq<char>)>,
    placed: Seq<Seq<char>>,
    j: int,
) -> Option<int>
    decreases nodes.len() - j,
{
    if j < 0 || j >= nodes.len() {
        None
    } else if ready(edges, placed, nodes[j]) {
        Some(j)
    } else {
        first_ready_from(nodes, edges, placed, j + 1)
    }
}

/// The greedy order that continues `placed`, or `None` where it gets stuck.
pub open spec fn greedy_order(
    nodes: Seq<Seq<char>>,
    edges: Seq<(Seq<char>, Seq<char>)>,
    placed: Seq<Seq<char>>,
) -> Option<Seq<Seq<char>>>
    decreases nodes.len() - placed.len(),
{
    if placed.len() >= nodes.len() {
        Some(placed)
    } else {
        match first_ready_from(nodes, edges, placed, 0) {
            Some(i) => greedy_order(nodes, edges, placed.push(nodes[i])),
            None => None,
        }
    }
}

/// Whether every edge joins two of the nodes.
pub open spec fn edges_known(nodes: Seq<Seq<char>>, edges: Seq<(Seq<char>, Seq<char>)>) -> bool {
    forall|k: int| 0 <= k < edges.len() ==> nodes.contains(#[trigger] edges[k].0) && nodes.contains(edges[k].1)
}

/// The result of ordering `nodes` by `edges`.
pub open spec fn toposort_spec(
    nodes: Seq<Seq<char>>,
    edges: Seq<(Seq<char>, Seq<char>)>,
) -> Result<Seq<Seq<char>>, ToposortError> {
    if !edges_known(nodes, edges) {
        Err(ToposortError::UnknownNode)
    } else {
        match greedy_order(nodes, edges, Seq::empty()) {
            Some(v) => Ok(v),
            None => Err(ToposortError::Cyclic),
        }
    }
}

fn is_ready(edges: &Vec<(String, String)>, placed: &Vec<String>, n: &String) -> (r: bool)
    ensures
        r == ready(pairs(edges@), strs(placed@), n@),
{
    if contains_str(placed, n) {
        return false;
    }
    let mut k: usize = 0;
    while k < edges.len()
        invariant
            k <= edges.len(),
            forall|kk: int| 0 <= kk < k && #[trigger] pairs(edges@)[kk].1 == n@ ==> strs(placed@).contains(pairs(edges@)[kk].0),
        decreases edges.len() - k,
    {
        if edges[k].1 == *n && !contains_str(placed, &edges[k].0) {
            assert(pairs(edges@)[k as int].1 == n@);
            return false;
        }
        k = k + 1;
    }
    true
}

fn first_ready(nodes: &Vec<String>, edges: &Vec<(String, String)>, placed: &Vec<String>) -> (r: Option<usize>)
    ensures
        match r {
            Some(i) => i < nodes.len() && first_ready_from(strs(nodes@), pairs(edges@), strs(placed@), 0) == Some(i as int),
            None => first_ready_from(strs(nodes@), pairs(edges@), strs(placed@), 0) is None,
        },
{
    let ghost ns = strs(nodes@);
    let ghost es = pairs(edges@);
    let ghost ps = strs(placed@);
    let mut j: usize = 0;
    while j < nodes.len()
        invariant
            j <= nodes.len(),
            ns == strs(nodes@),
            es == pairs(edges@),
            ps == strs(placed@),
            first_ready_from(ns, es, ps, 0) == first_ready_from(ns, es, ps, j as int),
        decreases nodes.len() - j,
    {
        if is_ready(edges, placed, &nodes[j]) {
            return Some(j);
        }
        j = j + 1;
    }
    None
}

/// Orders `nodes` so that for each edge `(a, b)`, `a` comes before `b`,
/// placing at each step the first node whose predecessors are all placed.
pub fn toposort(nodes: &Vec<String>, edges: &Vec<(String, String)>) -> (r: Result<Vec<String>, ToposortError>)
    ensures
        match r {
            Ok(v) => toposort_spec(strs(nodes@), pairs(edges@)) == Ok::<Seq<Seq<char>>, ToposortError>(strs(v@)),
            Err(e) => toposort_spec(strs(nodes@), pairs(edges@)) == Err::<Seq<Seq<char>>, ToposortError>(e),
        },
{
    let ghost ns = strs(nodes@);
    let ghost es = pairs(edges@);
    let mut k: usize = 0;
    while k < edges.len()
        invariant
            k <= edges.len(),
            forall|kk: int| 0 <= kk < k ==> ns.contains(#[trigger] es[kk].0) && ns.contains(es[kk].1),
            ns == strs(nodes@),
            es == pairs(edges@),
        decreases edges.len() - k,
    {
        let has_from = contains_str(nodes, &edges[k].0);
        let has_to = contains_str(nodes, &edges[k].1);
        if !has_from || !has_to {
            assert(es[k as int].0 == edges@[k as int].0@ && es[k as int].1 == edges@[k as int].1@);
            assert(!(ns.contains(es[k as int].0) && ns.contains(es[k as int].1)));
            assert(!edges_known(ns, es));
            return Err(ToposortError::UnknownNode);
        }
        assert(es[k as int].0 == edges@[k as int].0@ && es[k as int].1 == edges@[k as int].1@);
        assert(ns.contains(es[k as int].0) && ns.contains(es[k as int].1));
        assert forall|kk: int| 0 <= kk < k + 1 implies ns.contains(#[trigger] es[kk].0) && ns.contains(es[kk].1) by {
            if kk < k {
            } else {
                assert(kk == k);
            }
        }
        k = k + 1;
    }
    let mut placed: Vec<String> = Vec::new();
    assert(strs(placed@) =~= Seq::<Seq<char>>::empty());
    while placed.len() < nodes.len()
        invariant
            ns == strs(nodes@),
            es == pairs(edges@),
            edges_known(ns, es),
            greedy_order(ns, es, strs(placed@)) == greedy_order(ns, es, Seq::empty()),
        decreases nodes.len() - placed.len(),
    {
        let found = first_ready(nodes, edges, &placed);
        match found {
            None => {
                return Err(ToposortError::Cyclic);
            },
            Some(i) => {
                let ghost p0 = strs(placed@);
                placed.push(nodes[i].clone());
                assert(strs(placed@) =~= p0.push(ns[i as int]));
            },
        }
    }
    Ok(placed)
}

/// The first ready index, if any, is an index of the nodes.
pub proof fn lemma_first_ready_in_range(
    nodes: Seq<Seq<char>>,
    edges: Seq<(Seq<char>, Seq<char>)>,
    placed: Seq<Seq<char>>,
    j: int,
)
    ensures
        first_ready_from(nodes, edges, placed, j) matches Some(i) ==> 0 <= i < nodes.len() && j <= i
            && ready(edges, placed, nodes[i]),
    decreases nodes.len() - j,
{
    if 0 <= j < nodes.len() && !ready(edges, placed, nodes[j]) {
        lemma_first_ready_in_range(nodes, edges, placed, j + 1);
    }
}

/// The greedy order holds only nodes.
pub proof fn lemma_greedy_within(
    nodes: Seq<Seq<char>>,
    edges: Seq<(Seq<char>, Seq<char>)>,
    placed: Seq<Seq<char>>,
)
    requires
        forall|k: int| 0 <= k < placed.len() ==> nodes.contains(#[trigger] placed[k]),
    ensures
        greedy_order(nodes, edges, placed) matches Some(v) ==> forall|k: int| 0 <= k < v.len() ==> nodes.contains(#[trigger] v[k]),
    decreases nodes.len() - placed.len(),
{
    if placed.len() < nodes.len() {
        lemma_first_ready_in_range(nodes, edges, placed, 0);
        match first_ready_from(nodes, edges, placed, 0) {
            Some(i) => {
                let p2 = placed.push(nodes[i]);
                assert forall|k: int| 0 <= k < p2.len() implies nodes.contains(#[trigger] p2[k]) by {
                    if k == placed.len() {
                        assert(nodes[i] == p2[k]);
                    } else {
                        assert(p2[k] == placed[k]);
                    }
                }
                lemma_greedy_within(nodes, edges, p2);
            },
            None => {},
        }
    }
}

/// Whether `v` puts `a` before `b`.
pub open spec fn comes_before(v: Seq<Seq<char>>, a: Seq<char>, b: Seq<char>) -> bool {
    exists|i: int, j: int| 0 <= i < j < v.len() && v[i] == a && v[j] == b
}

/// Whether `v` orders every edge.
pub open spec fn respects(v: Seq<Seq<char>>, edges: Seq<(Seq<char>, Seq<char>)>) -> bool {
    forall|k: int| 0 <= k < edges.len() ==> comes_before(v, #[trigger] edges[k].0, edges[k].1)
}

/// Every placed node comes after its predecessors.
pub open spec fn placed_after_preds(v: Seq<Seq<char>>, edges: Seq<(Seq<char>, Seq<char>)>) -> bool {
    forall|j: int, k: int|
        0 <= j < v.len() && 0 <= k < edges.len() && #[trigger] edges[k].1 == #[trigger] v[j]
            ==> exists|i: int| 0 <= i < j && v[i] == edges[k].0
}

proof fn lemma_greedy_invariant(
    nodes: Seq<Seq<char>>,
    edges: Seq<(Seq<char>, Seq<char>)>,
    placed: Seq<Seq<char>>,
)
    requires
        placed.no_duplicates(),
        placed_after_preds(placed, edges),
        forall|k: int| 0 <= k < placed.len() ==> nodes.contains(#[trigger] placed[k]),
    ensures
        greedy_order(nodes, edges, placed) matches Some(v) ==> {
            &&& v.no_duplicates()
            &&& placed_after_preds(v, edges)
            &&& v.len() == nodes.len() || placed.len() > nodes.len()
            &&& forall|k: int| 0 <= k < v.len() ==> nodes.contains(#[trigger] v[k])
        },
    decreases nodes.len() - placed.len(),
{
    if placed.len() < nodes.len() {
        lemma_first_ready_in_range(nodes, edges, placed, 0);
        match first_ready_from(nodes, edges, placed, 0) {
            Some(i) => {
                let n = nodes[i];
                let p2 = placed.push(n);
                assert forall|a: int, b: int| 0 <= a < p2.len() && 0 <= b < p2.len() && a != b implies p2[a] != p2[b] by {
                    if a == placed.len() {
                        assert(p2[b] == placed[b]);
                    } else if b == placed.len() {
                        assert(p2[a] == placed[a]);
                    }
                }
                assert forall|j: int, k: int|
                    0 <= j < p2.len() && 0 <= k < edges.len() && #[trigger] edges[k].1 == #[trigger] p2[j]
                    implies exists|i2: int| 0 <= i2 < j && p2[i2] == edges[k].0 by {
                    if j == placed.len() {
                        assert(placed.contains(edges[k].0));
                        let i2 = choose|i2: int| 0 <= i2 < placed.len() && placed[i2] == edges[k].0;
                        assert(p2[i2] == edges[k].0);
                    } else {
                        assert(p2[j] == placed[j]);
                        let i2 = choose|i2: int| 0 <= i2 < j && placed[i2] == edges[k].0;
                        assert(p2[i2] == edges[k].0);
                    }
                }
                assert forall|k: int| 0 <= k < p2.len() implies nodes.contains(#[trigger] p2[k]) by {
                    if k == placed.len() {
                        assert(p2[k] == nodes[i]);
                    } else {
                        assert(p2[k] == placed[k]);
                    }
                }
                lemma_greedy_invariant(nodes, edges, p2);
            },
            None => {},
        }
    }
}

/// An order that `toposort` gives holds each node once and puts every edge's
/// source before its target.
pub proof fn lemma_toposort_orders(nodes: Seq<Seq<char>>, edges: Seq<(Seq<char>, Seq<char>)>, v: Seq<Seq<char>>)
    requires
        nodes.no_duplicates(),
        toposort_spec(nodes, edges) == Ok::<Seq<Seq<char>>, ToposortError>(v),
    ensures
        v.no_duplicates(),
        v.len() == nodes.len(),
        v.to_set() == nodes.to_set(),
        respects(v, edges),
{
    assert(edges_known(nodes, edges));
    assert(placed_after_preds(Seq::empty(), edges));
    lemma_greedy_invariant(nodes, edges, Seq::empty());
    assert forall|x: Seq<char>| #[trigger] nodes.contains(x) implies v.contains(x) by {
        if !v.contains(x) {
            let i = choose|i: int| 0 <= i < nodes.len() && nodes[i] == x;
            let rest = nodes.remove(i);
            assert forall|a: int, b: int| 0 <= a < rest.len() && 0 <= b < rest.len() && a != b implies rest[a] != rest[b] by {
                let oa = if a < i { a } else { a + 1 };
                let ob = if b < i { b } else { b + 1 };
                assert(rest[a] == nodes[oa] && rest[b] == nodes[ob]);
            }
            lemma_longer_has_other(rest, v);
            let k = choose|k: int| 0 <= k < v.len() && !rest.contains(#[trigger] v[k]);
            assert(nodes.contains(v[k]));
            let m = choose|m: int| 0 <= m < nodes.len() && nodes[m] == v[k];
            if m < i {
                assert(rest[m] == v[k]);
            } else if m > i {
                assert(rest[m - 1] == v[k]);
            } else {
                assert(v.contains(x));
            }
        }
    }
    assert(v.to_set() =~= nodes.to_set());
    assert forall|k: int| 0 <= k < edges.len() implies comes_before(v, #[trigger] edges[k].0, edges[k].1) by {
        let b = edges[k].1;
        assert(nodes.contains(edges[k].0) && nodes.contains(b));
        assert(v.contains(b));
        let j = choose|j: int| 0 <= j < v.len() && v[j] == b;
        assert(edges[k].1 == v[j]);
        let i = choose|i: int| 0 <= i < j && v[i] == edges[k].0;
        assert(0 <= i < j < v.len() && v[i] == edges[k].0 && v[j] == edges[k].1);
    }
}

proof fn lemma_first_ready_none(
    nodes: Seq<Seq<char>>,
    edges: Seq<(Seq<char>, Seq<char>)>,
    placed: Seq<Seq<char>>,
    j: int,
)
    requires
        0 <= j,
        first_ready_from(nodes, edges, placed, j) is None,
    ensures
        forall|i: int| j <= i < nodes.len() ==> !ready(edges, placed, #[trigger] nodes[i]),
    decreases nodes.len() - j,
{
    if j < nodes.len() {
        lemma_first_ready_none(nodes, edges, placed, j + 1);
    }
}

proof fn lemma_greedy_stuck(
    nodes: Seq<Seq<char>>,
    edges: Seq<(Seq<char>, Seq<char>)>,
    placed: Seq<Seq<char>>,
) -> (stuck: Seq<Seq<char>>)
    requires
        placed.no_duplicates(),
        greedy_order(nodes, edges, placed) is None,
    ensures
        stuck.no_duplicates(),
        stuck.len() < nodes.len(),
        forall|i: int| 0 <= i < nodes.len() ==> !ready(edges, stuck, #[trigger] nodes[i]),
    decreases nodes.len() - placed.len(),
{
    lemma_first_ready_in_range(nodes, edges, placed, 0);
    match first_ready_from(nodes, edges, placed, 0) {
        Some(i) => {
            let p2 = placed.push(nodes[i]);
            assert forall|a: int, b: int| 0 <= a < p2.len() && 0 <= b < p2.len() && a != b implies p2[a] != p2[b] by {
                if a == placed.len() {
                    assert(p2[b] == placed[b]);
                } else if b == placed.len() {
                    assert(p2[a] == placed[a]);
                }
            }
            lemma_greedy_stuck(nodes, edges, p2)
        },
        None => {
            lemma_first_ready_none(nodes, edges, placed, 0);
            placed
        },
    }
}

proof fn lemma_no_stuck_node_in(
    w: Seq<Seq<char>>,
    nodes: Seq<Seq<char>>,
    edges: Seq<(Seq<char>, Seq<char>)>,
    stuck: Seq<Seq<char>>,
    m: int,
)
    requires
        w.no_duplicates(),
        respects(w, edges),
        edges_known(nodes, edges),
        forall|i: int| 0 <= i < nodes.len() ==> !ready(edges, stuck, #[trigger] nodes[i]),
        m < w.len(),
    ensures
        forall|i: int| 0 <= i <= m ==> !(nodes.contains(#[trigger] w[i]) && !stuck.contains(w[i])),
    decreases m + 1,
{
    if m >= 0 {
        lemma_no_stuck_node_in(w, nodes, edges, stuck, m - 1);
        if nodes.contains(w[m]) && !stuck.contains(w[m]) {
            let i = choose|i: int| 0 <= i < nodes.len() && nodes[i] == w[m];
            assert(!ready(edges, stuck, nodes[i]));
            let k = choose|k: int| 0 <= k < edges.len() && #[trigger] edges[k].1 == w[m] && !stuck.contains(edges[k].0);
            assert(comes_before(w, edges[k].0, edges[k].1));
            let (a, b) = choose|a: int, b: int| 0 <= a < b < w.len() && w[a] == edges[k].0 && w[b] == edges[k].1;
            assert(b == m);
            assert(nodes.contains(edges[k].0));
            assert(nodes.contains(w[a]) && !stuck.contains(w[a]));
        }
    }
}

/// `toposort` reports a cycle only where no order of the nodes puts every
/// edge's source before its target.
pub proof fn lemma_toposort_cycle(nodes: Seq<Seq<char>>, edges: Seq<(Seq<char>, Seq<char>)>, w: Seq<Seq<char>>)
    requires
        nodes.no_duplicates(),
        toposort_spec(nodes, edges) == Err::<Seq<Seq<char>>, ToposortError>(ToposortError::Cyclic),
        w.no_duplicates(),
        forall|i: int| 0 <= i < nodes.len() ==> w.contains(#[trigger] nodes[i]),
    ensures
        !respects(w, edges),
{
    let stuck = lemma_greedy_stuck(nodes, edges, Seq::empty());
    lemma_longer_has_other(stuck, nodes);
    assert(edges_known(nodes, edges));
    let r = choose|i: int| 0 <= i < nodes.len() && !stuck.contains(#[trigger] nodes[i]);
    if respects(w, edges) {
        assert(w.contains(nodes[r]));
        let m = choose|m: int| 0 <= m < w.len() && w[m] == nodes[r];
        lemma_no_stuck_node_in(w, nodes, edges, stuck, m);
        assert(nodes.contains(w[m]));
    }
}

} // verus!
