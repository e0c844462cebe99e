use vstd::prelude::*;

use crate::nfa::{
    add_eps, graph_wf, lemma_add_eps_wf, shift_graph, shift_node, single, spec_and,
    spec_optional, spec_or, spec_plus, spec_range, spec_star,
};
use crate::node::{empty_node, lemma_with_target, with_target, NodeModel};

verus! {

/// Whether node `m` has an edge to node `v`: an epsilon edge where `l` is
/// `None`, an edge consuming `c` where `l` is `Some(c)`.
pub open spec fn node_edge<T>(m: NodeModel<T>, l: Option<T>, v: int) -> bool {
    match l {
        None => m.eps.contains(v as usize),
        Some(c) => exists|k: int|
            0 <= k < m.keys.len() && m.keys[k].0 == c && (#[trigger] m.keys[k]).1.contains(
                v as usize,
            ),
    }
}

/// An edge of `g` from node `u` to node `v`, labelled by `l`.
pub open spec fn edge<T>(g: Seq<NodeModel<T>>, u: int, l: Option<T>, v: int) -> bool {
    &&& 0 <= u < g.len()
    &&& 0 <= v < g.len()
    &&& node_edge(g[u], l, v)
}

/// A walk through `g`: the nodes `ns`, each joined to the next by an edge
/// labelled by the corresponding entry of `ls`.
pub open spec fn is_walk<T>(g: Seq<NodeModel<T>>, ns: Seq<int>, ls: Seq<Option<T>>) -> bool {
    &&& ns.len() == ls.len() + 1
    &&& forall|k: int| 0 <= k < ls.len() ==> edge(g, ns[k], #[trigger] ls[k], ns[k + 1])
}

/// The word that a sequence of labels spells: its symbols, epsilons left out.
pub open spec fn spelled<T>(ls: Seq<Option<T>>) -> Seq<T>
    decreases ls.len(),
{
    if ls.len() == 0 {
        seq![]
    } else {
        match ls.last() {
            Some(c) => spelled(ls.drop_last()).push(c),
            None => spelled(ls.drop_last()),
        }
    }
}

/// Whether the automaton with graph `g` accepts `w`: some walk from the
/// start (the first node) to the accept (the last node) spells `w`.
pub open spec fn accepts<T>(g: Seq<NodeModel<T>>, w: Seq<T>) -> bool {
    exists|ns: Seq<int>, ls: Seq<Option<T>>|
        is_walk(g, ns, ls) && ns[0] == 0 && ns.last() == g.len() - 1 && spelled(ls) == w
}

proof fn lemma_spelled_append<T>(l1: Seq<Option<T>>, l2: Seq<Option<T>>)
    ensures
        spelled(l1 + l2) == spelled(l1) + spelled(l2),
    decreases l2.len(),
{
    if l2.len() == 0 {
        assert(l1 + l2 =~= l1);
        assert(spelled(l2) =~= seq![]);
        assert(spelled(l1) + spelled(l2) =~= spelled(l1));
    } else {
        let p = l2.drop_last();
        lemma_spelled_append(l1, p);
        assert((l1 + l2).drop_last() =~= l1 + p);
        assert((l1 + l2).last() == l2.last());
        match l2.last() {
            Some(c) => {
                assert(spelled(l1) + spelled(l2) =~= (spelled(l1) + spelled(p)).push(c));
            },
            None => {},
        }
    }
}

proof fn lemma_edge_shift<T>(b: Seq<NodeModel<T>>, u: int, l: Option<T>, v: int, off: nat)
    requires
        graph_wf(b),
        b.len() + off <= usize::MAX,
        edge(b, u, l, v),
    ensures
        node_edge(shift_graph(b, off)[u], l, v + off),
{
    let s = shift_graph(b, off);
    let m = b[u];
    assert(v < b.len() && u < b.len());
    match l {
        None => {
            let j = choose|j: int| 0 <= j < m.eps.len() && m.eps[j] == v as usize;
            assert(m.eps[j] < b.len());
            assert(s[u].eps[j] == (v + off) as usize);
        },
        Some(c) => {
            let k = choose|k: int|
                0 <= k < m.keys.len() && m.keys[k].0 == c && (#[trigger] m.keys[k]).1.contains(
                    v as usize,
                );
            let j = choose|j: int| 0 <= j < m.keys[k].1.len() && m.keys[k].1[j] == v as usize;
            assert(m.keys[k].1[j] < b.len());
            assert(s[u].keys[k].1[j] == (v + off) as usize);
            assert(s[u].keys[k].0 == c);
        },
    }
}

proof fn lemma_and_accepts<T>(a: Seq<NodeModel<T>>, b: Seq<NodeModel<T>>, u: Seq<T>, v: Seq<T>)
    requires
        graph_wf(a),
        graph_wf(b),
        a.len() + b.len() <= usize::MAX,
        accepts(a, u),
        accepts(b, v),
    ensures
        accepts(spec_and(a, b), u + v),
{
    let (ns1, ls1) = choose|ns: Seq<int>, ls: Seq<Option<T>>|
        is_walk(a, ns, ls) && ns[0] == 0 && ns.last() == a.len() - 1 && spelled(ls) == u;
    let (ns2, ls2) = choose|ns: Seq<int>, ls: Seq<Option<T>>|
        is_walk(b, ns, ls) && ns[0] == 0 && ns.last() == b.len() - 1 && spelled(ls) == v;
    let off = a.len();
    let g = spec_and(a, b);
    let l = add_eps(a, a.len() - 1, a.len() as usize);
    let sb = shift_graph(b, off);
    let ns = ns1 + ns2.map_values(|x: int| x + off);
    let ls = ls1 + seq![None::<T>] + ls2;
    assert forall|k: int| 0 <= k < ls.len() implies edge(g, ns[k], #[trigger] ls[k], ns[k + 1]) by {
        if k < ls1.len() {
            assert(ls[k] == ls1[k]);
            assert(edge(a, ns1[k], ls1[k], ns1[k + 1]));
            assert(ns[k] == ns1[k] && ns[k + 1] == ns1[k + 1]);
            let x = ns1[k];
            assert(g[x] == l[x]);
            if x == a.len() - 1 {
                lemma_with_target(a[x].eps, a.len() as usize);
            }
            match ls1[k] {
                None => {},
                Some(c) => {
                    let kk = choose|kk: int|
                        0 <= kk < a[x].keys.len() && a[x].keys[kk].0 == c && (#[trigger] a[x].keys[kk]).1.contains(
                            ns1[k + 1] as usize,
                        );
                    assert(g[x].keys[kk] == a[x].keys[kk]);
                },
            }
        } else if k == ls1.len() {
            assert(ls[k] == None::<T>);
            assert(ns[k] == a.len() - 1);
            assert(ns[k + 1] == ns2[0] + off);
            lemma_with_target(a[a.len() - 1].eps, a.len() as usize);
            assert(g[a.len() - 1] == l[a.len() - 1]);
        } else {
            let k2 = k - ls1.len() - 1;
            assert(ls[k] == ls2[k2]);
            assert(ns[k] == ns2[k2] + off);
            assert(ns[k + 1] == ns2[k2 + 1] + off);
            assert(edge(b, ns2[k2], ls2[k2], ns2[k2 + 1]));
            lemma_edge_shift(b, ns2[k2], ls2[k2], ns2[k2 + 1], off);
            let x = ns2[k2] + off;
            assert(g[x] == sb[x - off]);
        }
    }
    lemma_spelled_append(ls1, seq![None::<T>]);
    assert(seq![None::<T>].drop_last() =~= seq![]);
    assert(seq![None::<T>].last() == None::<T>);
    let empty: Seq<Option<T>> = seq![];
    assert(spelled(empty) == Seq::<T>::empty());
    assert(spelled(seq![None::<T>]) == spelled(empty));
    assert(spelled(ls1 + seq![None::<T>]) =~= spelled(ls1));
    lemma_spelled_append(ls1 + seq![None::<T>], ls2);
    assert(ns[0] == 0);
    assert(ns.last() == g.len() - 1);
    assert(is_walk(g, ns, ls));
}

/// An edge of the concatenation that leaves a node of the first part stays
/// in it, or is the epsilon edge from its accept to the second part's start.
proof fn lemma_and_edge_left<T>(a: Seq<NodeModel<T>>, b: Seq<NodeModel<T>>, x: int, l: Option<T>, y: int)
    requires
        graph_wf(a),
        graph_wf(b),
        a.len() + b.len() <= usize::MAX,
        0 <= x < a.len(),
        edge(spec_and(a, b), x, l, y),
    ensures
        (y < a.len() && edge(a, x, l, y)) || (x == a.len() - 1 && l == None::<T> && y == a.len()),
{
    let g = spec_and(a, b);
    let lg = add_eps(a, a.len() - 1, a.len() as usize);
    assert(g[x] == lg[x]);
    let m = a[x];
    match l {
        None => {
            if x == a.len() - 1 {
                lemma_with_target(m.eps, a.len() as usize);
            }
            if y != a.len() {
                assert(m.eps.contains(y as usize));
                let j = choose|j: int| 0 <= j < m.eps.len() && m.eps[j] == y as usize;
                assert(m.eps[j] < a.len());
            }
        },
        Some(c) => {
            let k = choose|k: int|
                0 <= k < g[x].keys.len() && g[x].keys[k].0 == c && (#[trigger] g[x].keys[k]).1.contains(
                    y as usize,
                );
            assert(g[x].keys[k] == m.keys[k]);
            let j = choose|j: int| 0 <= j < m.keys[k].1.len() && m.keys[k].1[j] == y as usize;
            assert(m.keys[k].1[j] < a.len());
        },
    }
}

/// An edge of the concatenation that leaves a node of the second part stays
/// in it, and is an edge of the second automaton.
proof fn lemma_and_edge_right<T>(a: Seq<NodeModel<T>>, b: Seq<NodeModel<T>>, x: int, l: Option<T>, y: int)
    requires
        graph_wf(a),
        graph_wf(b),
        a.len() + b.len() <= usize::MAX,
        a.len() <= x,
        edge(spec_and(a, b), x, l, y),
    ensures
        a.len() <= y,
        edge(b, x - a.len(), l, y - a.len()),
{
    let g = spec_and(a, b);
    let off = a.len();
    let m = b[x - off];
    assert(g[x] == shift_node(m, off));
    match l {
        None => {
            let s = g[x].eps;
            let j = choose|j: int| 0 <= j < s.len() && s[j] == y as usize;
            assert(m.eps[j] < b.len());
            assert(m.eps.contains(m.eps[j]));
        },
        Some(c) => {
            let k = choose|k: int|
                0 <= k < g[x].keys.len() && g[x].keys[k].0 == c && (#[trigger] g[x].keys[k]).1.contains(
                    y as usize,
                );
            let s = g[x].keys[k].1;
            let j = choose|j: int| 0 <= j < s.len() && s[j] == y as usize;
            assert(m.keys[k].1[j] < b.len());
            assert(m.keys[k].1.contains(m.keys[k].1[j]));
        },
    }
}

proof fn lemma_first_reach(ns: Seq<int>, off: int, i: int) -> (c: int)
    requires
        0 <= i < ns.len(),
        ns[ns.len() - 1] >= off,
        forall|k: int| 0 <= k < i ==> ns[k] < off,
    ensures
        i <= c < ns.len(),
        ns[c] >= off,
        forall|k: int| 0 <= k < c ==> ns[k] < off,
    decreases ns.len() - i,
{
    if ns[i] >= off {
        i
    } else {
        lemma_first_reach(ns, off, i + 1)
    }
}

proof fn lemma_stays_right<T>(
    a: Seq<NodeModel<T>>,
    b: Seq<NodeModel<T>>,
    ns: Seq<int>,
    ls: Seq<Option<T>>,
    c: int,
    k: int,
)
    requires
        graph_wf(a),
        graph_wf(b),
        a.len() + b.len() <= usize::MAX,
        is_walk(spec_and(a, b), ns, ls),
        0 <= c <= k < ns.len(),
        ns[c] >= a.len(),
    ensures
        ns[k] >= a.len(),
    decreases k - c,
{
    if k > c {
        lemma_stays_right(a, b, ns, ls, c, k - 1);
        assert(edge(spec_and(a, b), ns[k - 1], ls[k - 1], ns[k]));
        lemma_and_edge_right(a, b, ns[k - 1], ls[k - 1], ns[k]);
    }
}

proof fn lemma_and_accepts_only<T>(a: Seq<NodeModel<T>>, b: Seq<NodeModel<T>>, w: Seq<T>)
    requires
        graph_wf(a),
        graph_wf(b),
        a.len() + b.len() <= usize::MAX,
        accepts(spec_and(a, b), w),
    ensures
        exists|u: Seq<T>, v: Seq<T>| accepts(a, u) && accepts(b, v) && w == u + v,
{
    let g = spec_and(a, b);
    let off = a.len() as int;
    let (ns, ls) = choose|ns: Seq<int>, ls: Seq<Option<T>>|
        is_walk(g, ns, ls) && ns[0] == 0 && ns.last() == g.len() - 1 && spelled(ls) == w;
    let c = lemma_first_reach(ns, off, 0);
    assert(c > 0);
    assert(edge(g, ns[c - 1], ls[c - 1], ns[c]));
    lemma_and_edge_left(a, b, ns[c - 1], ls[c - 1], ns[c]);
    let ns1 = ns.subrange(0, c);
    let ls1 = ls.subrange(0, c - 1);
    assert forall|k: int| 0 <= k < ls1.len() implies edge(a, ns1[k], #[trigger] ls1[k], ns1[k + 1]) by {
        assert(edge(g, ns[k], ls[k], ns[k + 1]));
        lemma_and_edge_left(a, b, ns[k], ls[k], ns[k + 1]);
    }
    assert(is_walk(a, ns1, ls1));
    let ns2 = ns.subrange(c, ns.len() as int).map_values(|x: int| x - off);
    let ls2 = ls.subrange(c, ls.len() as int);
    assert forall|k: int| 0 <= k < ls2.len() implies edge(b, ns2[k], #[trigger] ls2[k], ns2[k + 1]) by {
        lemma_stays_right(a, b, ns, ls, c, c + k);
        assert(edge(g, ns[c + k], ls[c + k], ns[c + k + 1]));
        lemma_and_edge_right(a, b, ns[c + k], ls[c + k], ns[c + k + 1]);
    }
    assert(is_walk(b, ns2, ls2));
    assert(ns2[0] == 0);
    assert(ns2.last() == b.len() - 1);
    assert(ls =~= ls1 + seq![None::<T>] + ls2);
    lemma_spelled_append(ls1, seq![None::<T>]);
    assert(seq![None::<T>].drop_last() =~= seq![]);
    assert(seq![None::<T>].last() == None::<T>);
    let empty: Seq<Option<T>> = seq![];
    assert(spelled(empty) == Seq::<T>::empty());
    assert(spelled(seq![None::<T>]) == spelled(empty));
    assert(spelled(ls1 + seq![None::<T>]) =~= spelled(ls1));
    lemma_spelled_append(ls1 + seq![None::<T>], ls2);
    let u = spelled(ls1);
    let v = spelled(ls2);
    assert(accepts(a, u));
    assert(accepts(b, v));
    assert(w == u + v);
}

/// Concatenation accepts exactly the concatenation of the two languages: a
/// word is accepted by `spec_and(a, b)` (what `NFA::and` builds) if and only
/// if it is a word of `a` followed by a word of `b`.
pub proof fn lemma_and_language<T>(a: Seq<NodeModel<T>>, b: Seq<NodeModel<T>>, w: Seq<T>)
    requires
        graph_wf(a),
        graph_wf(b),
        a.len() + b.len() <= usize::MAX,
    ensures
        accepts(spec_and(a, b), w) <==> exists|u: Seq<T>, v: Seq<T>|
            accepts(a, u) && accepts(b, v) && w == u + v,
{
    if accepts(spec_and(a, b), w) {
        lemma_and_accepts_only(a, b, w);
    }
    if exists|u: Seq<T>, v: Seq<T>| accepts(a, u) && accepts(b, v) && w == u + v {
        let (u, v) = choose|u: Seq<T>, v: Seq<T>| accepts(a, u) && accepts(b, v) && w == u + v;
        lemma_and_accepts(a, b, u, v);
    }
}

proof fn lemma_edge_with_target<T>(m: NodeModel<T>, x: usize, l: Option<T>, y: int)
    requires
        m.eps.no_duplicates(),
        0 <= y <= usize::MAX,
    ensures
        node_edge(NodeModel { eps: with_target(m.eps, x), keys: m.keys }, l, y) <==> (node_edge(
            m,
            l,
            y,
        ) || (l == None::<T> && y == x)),
{
    lemma_with_target(m.eps, x);
    let n = NodeModel { eps: with_target(m.eps, x), keys: m.keys };
    match l {
        None => {
            assert(n.eps.contains(y as usize) <==> (m.eps.contains(y as usize) || y as usize == x));
        },
        Some(c) => {
            assert(n.keys == m.keys);
        },
    }
}

/// An edge of a shifted graph, read back in the graph before the shift.
proof fn lemma_edge_unshift<T>(g: Seq<NodeModel<T>>, off: nat, i: int, l: Option<T>, y: int)
    requires
        graph_wf(g),
        g.len() + off <= usize::MAX,
        0 <= i < g.len(),
        0 <= y <= usize::MAX,
        node_edge(shift_graph(g, off)[i], l, y),
    ensures
        off <= y < g.len() + off,
        edge(g, i, l, y - off),
{
    let m = g[i];
    let sm = shift_graph(g, off)[i];
    assert(sm == shift_node(m, off));
    match l {
        None => {
            let j = choose|j: int| 0 <= j < sm.eps.len() && sm.eps[j] == y as usize;
            assert(m.eps[j] < g.len());
            assert(m.eps.contains(m.eps[j]));
        },
        Some(c) => {
            let k = choose|k: int|
                0 <= k < sm.keys.len() && sm.keys[k].0 == c && (#[trigger] sm.keys[k]).1.contains(
                    y as usize,
                );
            let s = sm.keys[k].1;
            let j = choose|j: int| 0 <= j < s.len() && s[j] == y as usize;
            assert(m.keys[k].1[j] < g.len());
            assert(m.keys[k].1.contains(m.keys[k].1[j]));
        },
    }
}

/// Alternation accepts every word of either automaton.
proof fn lemma_or_accepts<T>(a: Seq<NodeModel<T>>, b: Seq<NodeModel<T>>, w: Seq<T>, left: bool)
    requires
        graph_wf(a),
        graph_wf(b),
        a.len() + b.len() + 2 <= usize::MAX,
        left ==> accepts(a, w),
        !left ==> accepts(b, w),
    ensures
        accepts(spec_or(a, b), w),
{
    let g = spec_or(a, b);
    let top = (a.len() + b.len() + 1) as usize;
    let h = if left { a } else { b };
    let off: nat = if left { 1 } else { 1 + a.len() };
    let part = add_eps(shift_graph(h, off), h.len() - 1, top);
    assert forall|i: int| 0 <= i < h.len() implies #[trigger] g[i + off] == part[i] by {
        if left {
            assert(g[i + off] == add_eps(shift_graph(a, 1), a.len() - 1, top)[i]);
        } else {
            assert(g[i + off] == add_eps(shift_graph(b, 1 + a.len()), b.len() - 1, top)[i]);
        }
    }
    let (ns1, ls1) = choose|ns: Seq<int>, ls: Seq<Option<T>>|
        is_walk(h, ns, ls) && ns[0] == 0 && ns.last() == h.len() - 1 && spelled(ls) == w;
    let ns = seq![0int] + ns1.map_values(|x: int| x + off) + seq![top as int];
    let ls = seq![None::<T>] + ls1 + seq![None::<T>];
    assert forall|k: int| 0 <= k < ls.len() implies edge(g, ns[k], #[trigger] ls[k], ns[k + 1]) by {
        if k == 0 {
            assert(ns[1] == off);
            assert(g[0].eps =~= seq![1usize, (1 + a.len()) as usize]);
            assert(g[0].eps[if left { 0int } else { 1int }] == off);
        } else if k <= ls1.len() {
            let x = ns1[k - 1];
            let y = ns1[k];
            assert(edge(h, x, ls1[k - 1], y));
            assert(ns[k] == x + off && ns[k + 1] == y + off && ls[k] == ls1[k - 1]);
            lemma_edge_shift(h, x, ls1[k - 1], y, off);
            lemma_shift_targets_set(h, off, x);
            lemma_edge_with_target(
                shift_graph(h, off)[x],
                top,
                ls1[k - 1],
                y + off,
            );
            assert(g[x + off] == part[x]);
        } else {
            let x = ns1[ns1.len() - 1];
            assert(ns[k] == x + off);
            assert(x == h.len() - 1);
            lemma_shift_targets_set(h, off, x);
            lemma_edge_with_target(shift_graph(h, off)[x], top, None::<T>, top as int);
            assert(g[x + off] == part[x]);
        }
    }
    assert(ls =~= (seq![None::<T>] + ls1) + seq![None::<T>]);
    assert(seq![None::<T>].drop_last() =~= seq![]);
    assert(seq![None::<T>].last() == None::<T>);
    let empty: Seq<Option<T>> = seq![];
    assert(spelled(empty) == Seq::<T>::empty());
    assert(spelled(seq![None::<T>]) == spelled(empty));
    lemma_spelled_append(seq![None::<T>], ls1);
    lemma_spelled_append(seq![None::<T>] + ls1, seq![None::<T>]);
    assert(spelled(ls) =~= w);
    assert(is_walk(g, ns, ls));
    assert(ns[0] == 0);
    assert(ns.last() == g.len() - 1);
}

/// The part of `spec_or(a, b)` that holds a copy of `a` (where `left`) or of `b`.
spec fn or_part<T>(a: Seq<NodeModel<T>>, b: Seq<NodeModel<T>>, left: bool) -> Seq<NodeModel<T>> {
    if left {
        a
    } else {
        b
    }
}

/// Where that part starts in `spec_or(a, b)`.
spec fn or_off<T>(a: Seq<NodeModel<T>>, left: bool) -> nat {
    if left {
        1
    } else {
        1 + a.len()
    }
}

/// An edge that leaves a node of one part of the alternation stays in that
/// part, or is the epsilon edge from the part's accept to the new accept.
proof fn lemma_or_part_edge<T>(
    a: Seq<NodeModel<T>>,
    b: Seq<NodeModel<T>>,
    left: bool,
    i: int,
    l: Option<T>,
    y: int,
)
    requires
        graph_wf(a),
        graph_wf(b),
        a.len() + b.len() + 2 <= usize::MAX,
        0 <= i < or_part(a, b, left).len(),
        edge(spec_or(a, b), i + or_off(a, left), l, y),
    ensures
        ({
            let h = or_part(a, b, left);
            let off = or_off(a, left);
            (off <= y < off + h.len() && edge(h, i, l, y - off)) || (i == h.len() - 1 && l
                == None::<T> && y == a.len() + b.len() + 1)
        }),
{
    let g = spec_or(a, b);
    let top = (a.len() + b.len() + 1) as usize;
    let h = or_part(a, b, left);
    let off = or_off(a, left);
    let sh = shift_graph(h, off);
    let part = add_eps(sh, h.len() - 1, top);
    if left {
        assert(g[i + off] == add_eps(shift_graph(a, 1), a.len() - 1, top)[i]);
    } else {
        assert(g[i + off] == add_eps(shift_graph(b, 1 + a.len()), b.len() - 1, top)[i]);
    }
    assert(g[i + off] == part[i]);
    lemma_shift_targets_set(h, off, i);
    if i == h.len() - 1 {
        lemma_edge_with_target(sh[i], top, l, y);
    } else {
        assert(part[i] == sh[i]);
    }
    if node_edge(sh[i], l, y) {
        lemma_edge_unshift(h, off, i, l, y);
    }
}

proof fn lemma_shift_targets_set<T>(h: Seq<NodeModel<T>>, off: nat, i: int)
    requires
        graph_wf(h),
        h.len() + off <= usize::MAX,
        0 <= i < h.len(),
    ensures
        shift_graph(h, off)[i].eps.no_duplicates(),
{
    let s = shift_graph(h, off)[i].eps;
    assert forall|p: int, q: int| 0 <= p < s.len() && 0 <= q < s.len() && p != q implies s[p]
        != s[q] by {
        assert(h[i].eps[p] != h[i].eps[q]);
        assert(h[i].eps[p] < h.len() && h[i].eps[q] < h.len());
    }
}

proof fn lemma_or_stays<T>(
    a: Seq<NodeModel<T>>,
    b: Seq<NodeModel<T>>,
    left: bool,
    ns: Seq<int>,
    ls: Seq<Option<T>>,
    k: int,
)
    requires
        graph_wf(a),
        graph_wf(b),
        a.len() + b.len() + 2 <= usize::MAX,
        is_walk(spec_or(a, b), ns, ls),
        ns[1] == or_off(a, left),
        1 <= k < ns.len() - 1,
    ensures
        or_off(a, left) <= ns[k] < or_off(a, left) + or_part(a, b, left).len(),
    decreases k,
{
    let g = spec_or(a, b);
    let top = (a.len() + b.len() + 1) as int;
    let off = or_off(a, left);
    if k > 1 {
        lemma_or_stays(a, b, left, ns, ls, k - 1);
        assert(edge(g, ns[k - 1], ls[k - 1], ns[k]));
        lemma_or_part_edge(a, b, left, ns[k - 1] - off, ls[k - 1], ns[k]);
        if ns[k] == top {
            assert(edge(g, ns[k], ls[k], ns[k + 1]));
            assert(g[top] == empty_node::<T>());
            match ls[k] {
                None => {},
                Some(c) => {},
            }
        }
    }
}

/// Every word that the alternation of two automata accepts is a word of one
/// of them.
proof fn lemma_or_accepts_only<T>(a: Seq<NodeModel<T>>, b: Seq<NodeModel<T>>, w: Seq<T>)
    requires
        graph_wf(a),
        graph_wf(b),
        a.len() + b.len() + 2 <= usize::MAX,
        accepts(spec_or(a, b), w),
    ensures
        accepts(a, w) || accepts(b, w),
{
    let g = spec_or(a, b);
    let top = (a.len() + b.len() + 1) as int;
    let (ns, ls) = choose|ns: Seq<int>, ls: Seq<Option<T>>|
        is_walk(g, ns, ls) && ns[0] == 0 && ns.last() == g.len() - 1 && spelled(ls) == w;
    assert(ns.len() >= 2);
    assert(edge(g, ns[0], ls[0], ns[1]));
    assert(g[0].eps =~= seq![1usize, (1 + a.len()) as usize]);
    if ls[0] != None::<T> {
        assert(g[0].keys.len() == 0);
    }
    assert(g[0].eps.contains(ns[1] as usize));
    let left = ns[1] == 1;
    let h = or_part(a, b, left);
    let off = or_off(a, left);
    assert(ns[1] == off);
    let n = ns.len();
    assert(n >= 3) by {
        if n == 2 {
            assert(ns[1] == top);
        }
    }
    let ns1 = ns.subrange(1, n - 1).map_values(|x: int| x - off);
    let ls1 = ls.subrange(1, n - 2);
    assert forall|k: int| 0 <= k < ls1.len() implies edge(h, ns1[k], #[trigger] ls1[k], ns1[k + 1]) by {
        lemma_or_stays(a, b, left, ns, ls, k + 1);
        lemma_or_stays(a, b, left, ns, ls, k + 2);
        assert(edge(g, ns[k + 1], ls[k + 1], ns[k + 2]));
        lemma_or_part_edge(a, b, left, ns[k + 1] - off, ls[k + 1], ns[k + 2]);
    }
    lemma_or_stays(a, b, left, ns, ls, n - 2);
    assert(edge(g, ns[n - 2], ls[n - 2], ns[n - 1]));
    lemma_or_part_edge(a, b, left, ns[n - 2] - off, ls[n - 2], ns[n - 1]);
    assert(is_walk(h, ns1, ls1));
    assert(ns1[0] == 0);
    assert(ns1.last() == h.len() - 1);
    assert(ls =~= (seq![None::<T>] + ls1) + seq![None::<T>]);
    assert(seq![None::<T>].drop_last() =~= seq![]);
    assert(seq![None::<T>].last() == None::<T>);
    let empty: Seq<Option<T>> = seq![];
    assert(spelled(empty) == Seq::<T>::empty());
    assert(spelled(seq![None::<T>]) == spelled(empty));
    lemma_spelled_append(seq![None::<T>], ls1);
    lemma_spelled_append(seq![None::<T>] + ls1, seq![None::<T>]);
    assert(spelled(ls1) =~= w);
    assert(accepts(h, w));
}

/// Alternation accepts exactly the union of the two languages: a word is
/// accepted by `spec_or(a, b)` (what `NFA::or` builds) if and only if `a` or
/// `b` accepts it.
pub proof fn lemma_or_language<T>(a: Seq<NodeModel<T>>, b: Seq<NodeModel<T>>, w: Seq<T>)
    requires
        graph_wf(a),
        graph_wf(b),
        a.len() + b.len() + 2 <= usize::MAX,
    ensures
        accepts(spec_or(a, b), w) <==> (accepts(a, w) || accepts(b, w)),
{
    if accepts(spec_or(a, b), w) {
        lemma_or_accepts_only(a, b, w);
    }
    if accepts(a, w) {
        lemma_or_accepts(a, b, w, true);
    } else if accepts(b, w) {
        lemma_or_accepts(a, b, w, false);
    }
}

/// A walk stays a walk when an epsilon edge is added to the graph.
proof fn lemma_walk_add_eps<T>(
    g: Seq<NodeModel<T>>,
    i: int,
    x: usize,
    ns: Seq<int>,
    ls: Seq<Option<T>>,
)
    requires
        graph_wf(g),
        0 <= i < g.len(),
        is_walk(g, ns, ls),
    ensures
        is_walk(add_eps(g, i, x), ns, ls),
{
    let h = add_eps(g, i, x);
    assert forall|k: int| 0 <= k < ls.len() implies edge(h, ns[k], #[trigger] ls[k], ns[k + 1]) by {
        assert(edge(g, ns[k], ls[k], ns[k + 1]));
        if ns[k] == i {
            lemma_edge_with_target(g[i], x, ls[k], ns[k + 1]);
        }
    }
}

/// Two walks joined by an epsilon edge form a walk spelling both words.
proof fn lemma_walk_join<T>(
    g: Seq<NodeModel<T>>,
    ns1: Seq<int>,
    ls1: Seq<Option<T>>,
    ns2: Seq<int>,
    ls2: Seq<Option<T>>,
)
    requires
        is_walk(g, ns1, ls1),
        is_walk(g, ns2, ls2),
        edge(g, ns1.last(), None::<T>, ns2[0]),
    ensures
        is_walk(g, ns1 + ns2, ls1 + seq![None::<T>] + ls2),
        spelled(ls1 + seq![None::<T>] + ls2) == spelled(ls1) + spelled(ls2),
        (ns1 + ns2)[0] == ns1[0],
        (ns1 + ns2).last() == ns2.last(),
{
    let ns = ns1 + ns2;
    let ls = ls1 + seq![None::<T>] + ls2;
    assert forall|k: int| 0 <= k < ls.len() implies edge(g, ns[k], #[trigger] ls[k], ns[k + 1]) by {
        if k < ls1.len() {
            assert(edge(g, ns1[k], ls1[k], ns1[k + 1]));
        } else if k > ls1.len() {
            let k2 = k - ls1.len() - 1;
            assert(edge(g, ns2[k2], ls2[k2], ns2[k2 + 1]));
        }
    }
    lemma_spelled_append(ls1, seq![None::<T>]);
    assert(seq![None::<T>].drop_last() =~= seq![]);
    assert(seq![None::<T>].last() == None::<T>);
    let empty: Seq<Option<T>> = seq![];
    assert(spelled(empty) == Seq::<T>::empty());
    assert(spelled(seq![None::<T>]) == spelled(empty));
    assert(spelled(ls1 + seq![None::<T>]) =~= spelled(ls1));
    lemma_spelled_append(ls1 + seq![None::<T>], ls2);
}

/// The star of an automaton accepts the empty word, and every word of the
/// automaton followed by a word that the star accepts; so it accepts every
/// concatenation of zero or more words of the automaton.
pub proof fn lemma_star_accepts<T>(g: Seq<NodeModel<T>>, u: Seq<T>, v: Seq<T>)
    requires
        graph_wf(g),
    ensures
        accepts(spec_star(g), Seq::<T>::empty()),
        accepts(g, u) && accepts(spec_star(g), v) ==> accepts(spec_star(g), u + v),
{
    let last = (g.len() - 1) as usize;
    let p = spec_plus(g);
    let st = spec_star(g);
    lemma_add_eps_wf(g, g.len() - 1, 0);
    lemma_add_eps_wf(p, 0, last);
    lemma_with_target(p[0].eps, last);
    let ns0 = seq![0int, last as int];
    let ls0 = seq![None::<T>];
    assert(edge(st, 0, None::<T>, last as int));
    assert(is_walk(st, ns0, ls0));
    assert(ls0.drop_last() =~= seq![]);
    let empty: Seq<Option<T>> = seq![];
    assert(spelled(empty) == Seq::<T>::empty());
    assert(spelled(ls0) == spelled(empty));
    assert(accepts(st, Seq::<T>::empty()));
    if accepts(g, u) && accepts(st, v) {
        let (ns1, ls1) = choose|ns: Seq<int>, ls: Seq<Option<T>>|
            is_walk(g, ns, ls) && ns[0] == 0 && ns.last() == g.len() - 1 && spelled(ls) == u;
        let (ns2, ls2) = choose|ns: Seq<int>, ls: Seq<Option<T>>|
            is_walk(st, ns, ls) && ns[0] == 0 && ns.last() == st.len() - 1 && spelled(ls) == v;
        lemma_walk_add_eps(g, g.len() - 1, 0, ns1, ls1);
        lemma_walk_add_eps(p, 0, last, ns1, ls1);
        lemma_with_target(g[g.len() - 1].eps, 0);
        lemma_edge_with_target(p[last as int], last, None::<T>, 0);
        if last == 0 {
            lemma_edge_with_target(p[0], last, None::<T>, 0);
        }
        assert(edge(st, last as int, None::<T>, 0));
        lemma_walk_join(st, ns1, ls1, ns2, ls2);
        assert(accepts(st, u + v));
    }
}

/// The automaton of the empty word accepts only the empty word.
proof fn lemma_single_language<T>(w: Seq<T>)
    ensures
        accepts(single::<T>(), w) <==> w == Seq::<T>::empty(),
{
    let g = single::<T>();
    if accepts(g, w) {
        let (ns, ls) = choose|ns: Seq<int>, ls: Seq<Option<T>>|
            is_walk(g, ns, ls) && ns[0] == 0 && ns.last() == g.len() - 1 && spelled(ls) == w;
        if ls.len() > 0 {
            assert(edge(g, ns[0], ls[0], ns[1]));
            match ls[0] {
                None => {},
                Some(c) => {},
            }
        }
        assert(spelled(ls) == Seq::<T>::empty());
    }
    if w == Seq::<T>::empty() {
        let ns = seq![0int];
        let ls: Seq<Option<T>> = seq![];
        assert(is_walk(g, ns, ls));
        assert(spelled(ls) == w);
    }
}

/// Repetition from zero with no upper bound accepts exactly what the star
/// accepts.
pub proof fn lemma_range_unbounded_is_star<T>(g: Seq<NodeModel<T>>, w: Seq<T>)
    requires
        graph_wf(g),
        g.len() + 1 <= usize::MAX,
    ensures
        accepts(spec_range(g, 0, None), w) <==> accepts(spec_star(g), w),
{
    let st = spec_star(g);
    lemma_add_eps_wf(g, g.len() - 1, 0);
    lemma_add_eps_wf(spec_plus(g), 0, (g.len() - 1) as usize);
    assert(spec_range(g, 0, None) == spec_and(single::<T>(), st));
    assert(graph_wf(single::<T>())) by {
        assert(crate::node::node_wf(single::<T>()[0], 1));
    }
    lemma_and_language(single::<T>(), st, w);
    if accepts(st, w) {
        lemma_single_language::<T>(Seq::<T>::empty());
        assert(w == Seq::<T>::empty() + w);
    }
    if accepts(spec_range(g, 0, None), w) {
        let (u, v) = choose|u: Seq<T>, v: Seq<T>| accepts(single::<T>(), u) && accepts(st, v) && w == u + v;
        lemma_single_language::<T>(u);
        assert(w =~= v);
    }
}

/// An optional automaton accepts the empty word and every word of the
/// automaton. (It may accept more: where the start is entered again from
/// inside the automaton, the new edge can end a walk early.)
pub proof fn lemma_optional_accepts<T>(g: Seq<NodeModel<T>>, w: Seq<T>)
    requires
        graph_wf(g),
    ensures
        accepts(spec_optional(g), Seq::<T>::empty()),
        accepts(g, w) ==> accepts(spec_optional(g), w),
{
    let last = (g.len() - 1) as usize;
    let o = spec_optional(g);
    lemma_with_target(g[0].eps, last);
    let ns0 = seq![0int, last as int];
    let ls0 = seq![None::<T>];
    assert(edge(o, 0, None::<T>, last as int));
    assert(is_walk(o, ns0, ls0));
    assert(ls0.drop_last() =~= seq![]);
    let empty: Seq<Option<T>> = seq![];
    assert(spelled(empty) == Seq::<T>::empty());
    assert(spelled(ls0) == spelled(empty));
    if accepts(g, w) {
        let (ns, ls) = choose|ns: Seq<int>, ls: Seq<Option<T>>|
            is_walk(g, ns, ls) && ns[0] == 0 && ns.last() == g.len() - 1 && spelled(ls) == w;
        lemma_walk_add_eps(g, 0, last, ns, ls);
    }
}

} // verus!
