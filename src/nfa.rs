use vstd::prelude::*;

use crate::node::{
    empty_node, lemma_remap_one_to_one, lemma_remap_shift, lookup, lemma_with_target, node_cloned, node_wf, remap_node,
    with_target, Node, NodeModel,
};

verus! {

/// Every reference of `s` moved up by `off`.
pub open spec fn shift_targets(s: Seq<usize>, off: nat) -> Seq<usize> {
    s.map_values(|x: usize| (x + off) as usize)
}

/// Every reference held by the node moved up by `off`.
pub open spec fn shift_node<T>(m: NodeModel<T>, off: nat) -> NodeModel<T> {
    NodeModel {
        eps: shift_targets(m.eps, off),
        keys: m.keys.map_values(|p: (T, Seq<usize>)| (p.0, shift_targets(p.1, off))),
    }
}

/// A graph placed `off` positions further into an arena.
pub open spec fn shift_graph<T>(g: Seq<NodeModel<T>>, off: nat) -> Seq<NodeModel<T>> {
    g.map_values(|m: NodeModel<T>| shift_node(m, off))
}

/// The graph with an epsilon edge from node `i` to node `x`.
pub open spec fn add_eps<T>(g: Seq<NodeModel<T>>, i: int, x: usize) -> Seq<NodeModel<T>> {
    g.update(i, NodeModel { eps: with_target(g[i].eps, x), keys: g[i].keys })
}

/// A graph of an automaton: at least one node, every reference inside it,
/// and an accepting (last) node that consumes nothing.
pub open spec fn graph_wf<T>(g: Seq<NodeModel<T>>) -> bool {
    &&& 1 <= g.len() <= usize::MAX
    &&& forall|i: int| 0 <= i < g.len() ==> node_wf(#[trigger] g[i], g.len())
    &&& g.last().keys.len() == 0
}

/// The automaton of the empty word: one node, both start and accept.
pub open spec fn single<T>() -> Seq<NodeModel<T>> {
    seq![empty_node::<T>()]
}

/// `g` followed by one symbol: a new accepting node reached from the old one
/// by consuming `v`.
pub open spec fn spec_append<T>(g: Seq<NodeModel<T>>, v: T) -> Seq<NodeModel<T>> {
    g.update(
        g.len() - 1,
        NodeModel { eps: g.last().eps, keys: seq![(v, seq![g.len() as usize])] },
    ).push(empty_node::<T>())
}

/// The automaton of a word, one symbol after another.
pub open spec fn spec_word<T>(w: Seq<T>) -> Seq<NodeModel<T>>
    decreases w.len(),
{
    if w.len() == 0 {
        single::<T>()
    } else {
        spec_append(spec_word(w.drop_last()), w.last())
    }
}

/// Concatenation: `b` placed after `a`, the accept of `a` joined to the start
/// of `b` by an epsilon edge.
pub open spec fn spec_and<T>(a: Seq<NodeModel<T>>, b: Seq<NodeModel<T>>) -> Seq<NodeModel<T>> {
    add_eps(a, a.len() - 1, a.len() as usize) + shift_graph(b, a.len())
}

/// Alternation: a new start with epsilon edges to both starts, then `a`, then
/// `b`, then a new accept reached by epsilon edges from both old accepts.
pub open spec fn spec_or<T>(a: Seq<NodeModel<T>>, b: Seq<NodeModel<T>>) -> Seq<NodeModel<T>> {
    let top = (a.len() + b.len() + 1) as usize;
    seq![NodeModel { eps: seq![1usize, (1 + a.len()) as usize], keys: seq![] }] + add_eps(
        shift_graph(a, 1),
        a.len() - 1,
        top,
    ) + add_eps(shift_graph(b, 1 + a.len()), b.len() - 1, top) + seq![empty_node::<T>()]
}

/// One or more: an epsilon edge from the accept back to the start.
pub open spec fn spec_plus<T>(g: Seq<NodeModel<T>>) -> Seq<NodeModel<T>> {
    add_eps(g, g.len() - 1, 0)
}

/// Zero or one: an epsilon edge from the start to the accept.
pub open spec fn spec_optional<T>(g: Seq<NodeModel<T>>) -> Seq<NodeModel<T>> {
    add_eps(g, 0, (g.len() - 1) as usize)
}

/// Zero or more: one or more, made optional.
pub open spec fn spec_star<T>(g: Seq<NodeModel<T>>) -> Seq<NodeModel<T>> {
    spec_optional(spec_plus(g))
}

/// `n` copies of `g` in sequence, after the automaton of the empty word.
pub open spec fn repeat<T>(g: Seq<NodeModel<T>>, n: nat) -> Seq<NodeModel<T>>
    decreases n,
{
    if n == 0 {
        single::<T>()
    } else {
        spec_and(repeat(g, (n - 1) as nat), g)
    }
}

/// `n` optional copies of `g` in sequence, after the automaton of the empty word.
pub open spec fn repeat_optional<T>(g: Seq<NodeModel<T>>, n: nat) -> Seq<NodeModel<T>>
    decreases n,
{
    if n == 0 {
        single::<T>()
    } else {
        spec_and(repeat_optional(g, (n - 1) as nat), spec_optional(g))
    }
}

/// Bounded repetition `{from,to}`, or `{from,}` where `to` is absent: `from`
/// mandatory copies, then `to - from` optional copies or one starred copy.
pub open spec fn spec_range<T>(g: Seq<NodeModel<T>>, from: nat, to: Option<usize>) -> Seq<
    NodeModel<T>,
> {
    let tail = match to {
        Some(x) => repeat_optional(g, (x - from) as nat),
        None => spec_star(g),
    };
    spec_and(repeat(g, from), tail)
}

/// Whether the range's result has at most `usize::MAX` nodes, for a graph of
/// `len` nodes; a malformed range builds nothing and always fits.
pub open spec fn range_fits(len: nat, from: nat, to: Option<usize>) -> bool {
    match to {
        Some(x) => x < from || 2 + x * len <= usize::MAX,
        None => 1 + (from + 1) * len <= usize::MAX,
    }
}

/// Two graphs of the same shape whose symbols are clones of each other.
pub open spec fn graph_cloned<T: Clone>(a: Seq<NodeModel<T>>, b: Seq<NodeModel<T>>) -> bool {
    &&& a.len() == b.len()
    &&& forall|i: int| 0 <= i < a.len() ==> node_cloned(#[trigger] a[i], b[i])
}

/// The error of a malformed bounded repetition.
#[derive(Debug, PartialEq, Eq, Structural)]
pub enum RangeError {
    /// The upper bound is below the lower one.
    MalformedRange,
}

/// A nondeterministic finite automaton: an arena of nodes that refer to each
/// other by index. The first node is the start, the last the accept.
pub struct NFA<T> {
    graph: Vec<Node<T>>,
}

impl<T> View for NFA<T> {
    type V = Seq<NodeModel<T>>;

    closed spec fn view(&self) -> Seq<NodeModel<T>> {
        nodes_view(self.graph@)
    }
}

/// The models of the nodes of an arena.
pub open spec fn nodes_view<T>(v: Seq<Node<T>>) -> Seq<NodeModel<T>> {
    v.map_values(|n: Node<T>| n@)
}

proof fn lemma_shift_targets(s: Seq<usize>, off: nat, n: nat)
    requires
        s.no_duplicates(),
        forall|j: int| 0 <= j < s.len() ==> s[j] < n,
        n + off <= usize::MAX + 1,
    ensures
        shift_targets(s, off).no_duplicates(),
        shift_targets(s, off).len() == s.len(),
        forall|j: int|
            0 <= j < s.len() ==> #[trigger] shift_targets(s, off)[j] == s[j] + off && s[j] + off
                < n + off,
{
    let t = shift_targets(s, off);
    assert forall|i: int, j: int| 0 <= i < t.len() && 0 <= j < t.len() && i != j implies t[i]
        != t[j] by {
        assert(s[i] != s[j]);
    }
}

proof fn lemma_shift_node_wf<T>(m: NodeModel<T>, off: nat, n: nat)
    requires
        node_wf(m, n),
        n + off <= usize::MAX + 1,
    ensures
        node_wf(shift_node(m, off), n + off),
        shift_node(m, off).keys.len() == m.keys.len(),
{
    lemma_shift_targets(m.eps, off, n);
    let s = shift_node(m, off);
    assert forall|k: int| 0 <= k < s.keys.len() implies {
        &&& (#[trigger] s.keys[k]).1.no_duplicates()
        &&& forall|j: int| 0 <= j < s.keys[k].1.len() ==> s.keys[k].1[j] < n + off
    } by {
        lemma_shift_targets(m.keys[k].1, off, n);
    }
}

proof fn lemma_shift_graph_wf<T>(g: Seq<NodeModel<T>>, off: nat, n: nat)
    requires
        forall|i: int| 0 <= i < g.len() ==> node_wf(#[trigger] g[i], n),
        n + off <= usize::MAX + 1,
    ensures
        forall|i: int|
            0 <= i < g.len() ==> node_wf(#[trigger] shift_graph(g, off)[i], n + off),
        forall|i: int|
            0 <= i < g.len() ==> (#[trigger] shift_graph(g, off)[i]).keys.len() == g[i].keys.len(),
{
    assert forall|i: int| 0 <= i < g.len() implies node_wf(
        #[trigger] shift_graph(g, off)[i],
        n + off,
    ) && shift_graph(g, off)[i].keys.len() == g[i].keys.len() by {
        lemma_shift_node_wf(g[i], off, n);
    }
}

proof fn lemma_node_wf_mono<T>(m: NodeModel<T>, n: nat, n2: nat)
    requires
        node_wf(m, n),
        n <= n2,
    ensures
        node_wf(m, n2),
{
}

/// Adding an epsilon edge between two nodes keeps a graph well formed.
pub proof fn lemma_add_eps_wf<T>(g: Seq<NodeModel<T>>, i: int, x: usize)
    requires
        graph_wf(g),
        0 <= i < g.len(),
        x < g.len(),
    ensures
        graph_wf(add_eps(g, i, x)),
        add_eps(g, i, x).len() == g.len(),
{
    lemma_with_target(g[i].eps, x);
    let h = add_eps(g, i, x);
    assert(node_wf(h[i], g.len())) by {
        assert forall|j: int| 0 <= j < h[i].eps.len() implies h[i].eps[j] < g.len() by {
            assert(h[i].eps.contains(h[i].eps[j]));
        }
    }
}

/// Concatenation keeps an automaton's graph well formed.
pub proof fn lemma_and_wf<T>(a: Seq<NodeModel<T>>, b: Seq<NodeModel<T>>)
    requires
        graph_wf(a),
        graph_wf(b),
        a.len() + b.len() <= usize::MAX,
    ensures
        graph_wf(spec_and(a, b)),
        spec_and(a, b).len() == a.len() + b.len(),
{
    let n = a.len() + b.len();
    let l = add_eps(a, a.len() - 1, a.len() as usize);
    lemma_with_target(a.last().eps, a.len() as usize);
    assert forall|i: int| 0 <= i < a.len() implies node_wf(#[trigger] l[i], n) by {
        if i == a.len() - 1 {
            assert forall|j: int| 0 <= j < l[i].eps.len() implies l[i].eps[j] < n by {
                assert(l[i].eps.contains(l[i].eps[j]));
                if l[i].eps[j] != a.len() {
                    assert(a[i].eps.contains(l[i].eps[j]));
                }
            }
        } else {
            lemma_node_wf_mono(a[i], a.len(), n);
        }
    }
    lemma_shift_graph_wf(b, a.len(), b.len());
    let r = spec_and(a, b);
    assert forall|i: int| 0 <= i < r.len() implies node_wf(#[trigger] r[i], r.len()) by {
        if i < a.len() {
            assert(r[i] == l[i]);
        } else {
            assert(r[i] == shift_graph(b, a.len())[i - a.len()]);
        }
    }
    assert(r.last() == shift_graph(b, a.len())[b.len() - 1]);
}

proof fn lemma_add_eps_node_wf<T>(m: NodeModel<T>, x: usize, n: nat)
    requires
        node_wf(m, n),
        x < n,
    ensures
        node_wf(NodeModel { eps: with_target(m.eps, x), keys: m.keys }, n),
{
    lemma_with_target(m.eps, x);
    let e = with_target(m.eps, x);
    assert forall|j: int| 0 <= j < e.len() implies e[j] < n by {
        assert(e.contains(e[j]));
        if e[j] != x {
            assert(m.eps.contains(e[j]));
        }
    }
}

/// Alternation keeps an automaton's graph well formed.
pub proof fn lemma_or_wf<T>(a: Seq<NodeModel<T>>, b: Seq<NodeModel<T>>)
    requires
        graph_wf(a),
        graph_wf(b),
        a.len() + b.len() + 2 <= usize::MAX,
    ensures
        graph_wf(spec_or(a, b)),
        spec_or(a, b).len() == a.len() + b.len() + 2,
{
    let n = a.len() + b.len() + 2;
    let top = (a.len() + b.len() + 1) as usize;
    lemma_shift_graph_wf(a, 1, a.len());
    lemma_shift_graph_wf(b, 1 + a.len(), b.len());
    let r = spec_or(a, b);
    let sa = shift_graph(a, 1);
    let sb = shift_graph(b, 1 + a.len());
    let la = add_eps(sa, a.len() - 1, top);
    let lb = add_eps(sb, b.len() - 1, top);
    assert forall|i: int| 0 <= i < r.len() implies node_wf(#[trigger] r[i], r.len()) by {
        if i == 0 {
            assert(r[i].eps =~= seq![1usize, (1 + a.len()) as usize]);
        } else if i <= a.len() {
            assert(r[i] == la[i - 1]);
            lemma_node_wf_mono(sa[i - 1], a.len() + 1, n);
            if i == a.len() {
                lemma_add_eps_node_wf(sa[i - 1], top, n);
            }
        } else if i <= a.len() + b.len() {
            assert(r[i] == lb[i - 1 - a.len()]);
            lemma_node_wf_mono(sb[i - 1 - a.len()], b.len() + 1 + a.len(), n);
            if i == a.len() + b.len() {
                lemma_add_eps_node_wf(sb[i - 1 - a.len()], top, n);
            }
        } else {
            assert(r[i] == empty_node::<T>());
        }
    }
}

/// Two graphs of one shape are well formed together.
pub proof fn lemma_cloned_wf<T: Clone>(a: Seq<NodeModel<T>>, b: Seq<NodeModel<T>>)
    requires
        graph_wf(a),
        graph_cloned(a, b),
    ensures
        graph_wf(b),
{
    assert forall|i: int| 0 <= i < b.len() implies node_wf(#[trigger] b[i], b.len()) by {
        assert(node_cloned(a[i], b[i]));
        assert forall|k: int| 0 <= k < b[i].keys.len() implies {
            &&& (#[trigger] b[i].keys[k]).1.no_duplicates()
            &&& forall|j: int| 0 <= j < b[i].keys[k].1.len() ==> b[i].keys[k].1[j] < b.len()
        } by {
            assert(a[i].keys[k].1 == b[i].keys[k].1);
        }
    }
    assert(node_cloned(a[a.len() - 1], b[b.len() - 1]));
}


/// The table that moves each of the first `n` references up by `off`.
fn shift_table(n: usize, off: usize) -> (r: Vec<usize>)
    requires
        n + off <= usize::MAX,
    ensures
        r@.len() == n,
        forall|i: int| 0 <= i < n ==> r@[i] == i + off,
{
    let mut r: Vec<usize> = Vec::new();
    let mut i: usize = 0;
    while i < n
        invariant
            i <= n,
            n + off <= usize::MAX,
            r@.len() == i,
            forall|j: int| 0 <= j < i ==> r@[j] == j + off,
        decreases n - i,
    {
        r.push(i + off);
        i = i + 1;
    }
    r
}

proof fn lemma_remap_is_shift<T>(m: NodeModel<T>, table: Seq<usize>, off: nat)
    requires
        node_wf(m, table.len()),
        forall|i: int| 0 <= i < table.len() ==> table[i] == i + off,
    ensures
        remap_node(m, table) == shift_node(m, off),
{
    lemma_remap_shift(m.eps, table, off);
    assert forall|k: int| 0 <= k < m.keys.len() implies #[trigger] remap_node(m, table).keys[k]
        == shift_node(m, off).keys[k] by {
        lemma_remap_shift(m.keys[k].1, table, off);
    }
    assert(remap_node(m, table).keys =~= shift_node(m, off).keys);
}

/// Moves every reference of the nodes up by `off`, through one shared table.
fn shift_all<T>(nodes: &mut Vec<Node<T>>, off: usize)
    requires
        forall|i: int|
            0 <= i < old(nodes)@.len() ==> node_wf(
                #[trigger] nodes_view(old(nodes)@)[i],
                old(nodes)@.len() as nat,
            ),
        old(nodes)@.len() + off <= usize::MAX,
    ensures
        final(nodes)@.len() == old(nodes)@.len(),
        nodes_view(final(nodes)@) == shift_graph(nodes_view(old(nodes)@), off as nat),
{
    let n = nodes.len();
    let table = shift_table(n, off);
    let ghost g = nodes_view(old(nodes)@);
    let mut i: usize = 0;
    while i < n
        invariant
            i <= n,
            n == nodes@.len(),
            table@.len() == n,
            forall|j: int| 0 <= j < n ==> table@[j] == j + off,
            g.len() == n,
            forall|j: int| 0 <= j < n ==> node_wf(#[trigger] g[j], n as nat),
            forall|j: int| 0 <= j < i ==> (#[trigger] nodes@[j])@ == shift_node(g[j], off as nat),
            forall|j: int| i <= j < n ==> (#[trigger] nodes@[j])@ == g[j],
        decreases n - i,
    {
        proof {
            lemma_remap_is_shift(g[i as int], table@, off as nat);
        }
        nodes[i].remap(&table);
        i = i + 1;
    }
    assert(nodes_view(nodes@) =~= shift_graph(g, off as nat));
}

impl<T> Default for NFA<T> {
    /// The automaton of the empty word: a single node.
    fn default() -> (r: Self)
        ensures
            r@ == single::<T>(),
            r.wf(),
    {
        let mut graph: Vec<Node<T>> = Vec::new();
        graph.push(Node::default());
        let r = NFA { graph };
        assert(r@ =~= single::<T>());
        r
    }
}

impl<T> NFA<T> {
    /// The graph is that of an automaton (see `graph_wf`).
    pub open spec fn wf(&self) -> bool {
        graph_wf(self@)
    }

    /// The number of nodes.
    pub fn len(&self) -> (r: usize)
        ensures
            r == self@.len(),
    {
        self.graph.len()
    }

    /// The node at index `i`.
    pub fn node(&self, i: usize) -> (r: &Node<T>)
        requires
            i < self@.len(),
        ensures
            r@ == self@[i as int],
    {
        &self.graph[i]
    }

    /// The start node, the first of the arena.
    pub fn start(&self) -> (r: &Node<T>)
        requires
            self.wf(),
        ensures
            r@ == self@[0],
    {
        &self.graph[0]
    }

    /// The start node, for change in place.
    pub fn start_mut(&mut self) -> (r: &mut Node<T>)
        requires
            old(self).wf(),
        ensures
            (*r)@ == old(self)@[0],
            final(self)@ == old(self)@.update(0, (*final(r))@),
    {
        &mut self.graph[0]
    }

    /// The accepting node, the last of the arena.
    pub fn accept(&self) -> (r: &Node<T>)
        requires
            self.wf(),
        ensures
            r@ == self@.last(),
    {
        &self.graph[self.graph.len() - 1]
    }

    /// The accepting node, for change in place.
    pub fn accept_mut(&mut self) -> (r: &mut Node<T>)
        requires
            old(self).wf(),
        ensures
            (*r)@ == old(self)@.last(),
            final(self)@ == old(self)@.update(old(self)@.len() - 1, (*final(r))@),
    {
        let n = self.graph.len();
        &mut self.graph[n - 1]
    }
}

proof fn lemma_append_wf<T>(g: Seq<NodeModel<T>>, v: T)
    requires
        graph_wf(g),
        g.len() + 1 <= usize::MAX,
    ensures
        graph_wf(spec_append(g, v)),
        spec_append(g, v).len() == g.len() + 1,
{
    let r = spec_append(g, v);
    assert forall|i: int| 0 <= i < r.len() implies node_wf(#[trigger] r[i], r.len()) by {
        if i < g.len() - 1 {
            lemma_node_wf_mono(g[i], g.len(), r.len());
        } else if i == g.len() - 1 {
            assert(r[i].keys[0].1 =~= seq![g.len() as usize]);
        } else {
            assert(r[i] == empty_node::<T>());
        }
    }
}

impl<T> NFA<T> {
    /// Extends the automaton by one symbol: a new accepting node, reached from
    /// the old accepting node by consuming `value`.
    pub fn append(self, value: T) -> (r: Self)
        requires
            self.wf(),
            self@.len() + 1 <= usize::MAX,
        ensures
            r@ == spec_append(self@, value),
            r.wf(),
    {
        let ghost g = self@;
        let mut graph = self.graph;
        let n = graph.len();
        graph.push(Node::default());
        graph[n - 1].add_transition(value, n);
        let r = NFA { graph };
        proof {
            lemma_append_wf(g, value);
        }
        assert(r@ =~= spec_append(g, value));
        r
    }

    /// The automaton of a word: the symbols appended one after another to the
    /// automaton of the empty word.
    pub fn from_symbols(symbols: Vec<T>) -> (r: Self)
        requires
            symbols@.len() + 1 <= usize::MAX,
        ensures
            r@ == spec_word(symbols@),
            r.wf(),
    {
        let ghost w = symbols@;
        let mut rest = symbols;
        let mut rev: Vec<T> = Vec::new();
        while rest.len() > 0
            invariant
                rest@.len() + rev@.len() == w.len(),
                forall|i: int| 0 <= i < rest@.len() ==> rest@[i] == w[i],
                forall|i: int| 0 <= i < rev@.len() ==> #[trigger] rev@[i] == w[w.len() - 1 - i],
            decreases rest@.len(),
        {
            let x = rest.pop().unwrap();
            rev.push(x);
        }
        let mut r = NFA::default();
        while rev.len() > 0
            invariant
                rev@.len() <= w.len(),
                w.len() + 1 <= usize::MAX,
                forall|i: int| 0 <= i < rev@.len() ==> #[trigger] rev@[i] == w[w.len() - 1 - i],
                r.wf(),
                r@ == spec_word(w.subrange(0, w.len() - rev@.len())),
                r@.len() == w.len() - rev@.len() + 1,
            decreases rev@.len(),
        {
            let ghost done = w.subrange(0, w.len() - rev@.len());
            let x = rev.pop().unwrap();
            r = r.append(x);
            proof {
                let next = w.subrange(0, w.len() - rev@.len());
                assert(next.drop_last() =~= done);
                assert(next.last() == x);
            }
        }
        assert(w.subrange(0, w.len() as int) =~= w);
        r
    }

    /// Concatenation: an epsilon edge from this automaton's accept to the start
    /// of `rhs`, whose nodes move into this arena after the existing ones.
    pub fn and(self, rhs: Self) -> (r: Self)
        requires
            self.wf(),
            rhs.wf(),
            self@.len() + rhs@.len() <= usize::MAX,
        ensures
            r@ == spec_and(self@, rhs@),
            r.wf(),
    {
        let ghost a = self@;
        let ghost b = rhs@;
        let mut graph = self.graph;
        let n = graph.len();
        let mut rest = rhs.graph;
        shift_all(&mut rest, n);
        graph[n - 1].add_epsilon(n);
        graph.append(&mut rest);
        let r = NFA { graph };
        proof {
            lemma_and_wf(a, b);
        }
        assert(r@ =~= spec_and(a, b));
        r
    }

    /// Alternation: a new start with epsilon edges to both starts, and a new
    /// accept reached by epsilon edges from both old accepts.
    pub fn or(self, rhs: Self) -> (r: Self)
        requires
            self.wf(),
            rhs.wf(),
            self@.len() + rhs@.len() + 2 <= usize::MAX,
        ensures
            r@ == spec_or(self@, rhs@),
            r.wf(),
    {
        let ghost a = self@;
        let ghost b = rhs@;
        let na = self.graph.len();
        let nb = rhs.graph.len();
        let mut left = self.graph;
        shift_all(&mut left, 1);
        let mut right = rhs.graph;
        shift_all(&mut right, 1 + na);
        let top = na + nb + 1;
        left[na - 1].add_epsilon(top);
        right[nb - 1].add_epsilon(top);
        let mut first = Node::default();
        first.add_epsilon(1);
        first.add_epsilon(1 + na);
        let mut graph: Vec<Node<T>> = Vec::new();
        graph.push(first);
        graph.append(&mut left);
        graph.append(&mut right);
        graph.push(Node::default());
        let r = NFA { graph };
        proof {
            lemma_or_wf(a, b);
            assert(r@[0].eps =~= seq![1usize, (1 + a.len()) as usize]);
        }
        assert(r@ =~= spec_or(a, b));
        r
    }

    /// One or more: an epsilon edge from the accept back to the start.
    pub fn plus(self) -> (r: Self)
        requires
            self.wf(),
        ensures
            r@ == spec_plus(self@),
            r.wf(),
    {
        let ghost g = self@;
        let mut graph = self.graph;
        let n = graph.len();
        graph[n - 1].add_epsilon(0);
        let r = NFA { graph };
        proof {
            lemma_add_eps_wf(g, g.len() - 1, 0);
        }
        assert(r@ =~= spec_plus(g));
        r
    }

    /// Zero or one: an epsilon edge from the start to the accept. Where the
    /// start is entered again from inside (after `plus`, or at the front of a
    /// concatenation), that edge also ends walks that went round once.
    pub fn optional(self) -> (r: Self)
        requires
            self.wf(),
        ensures
            r@ == spec_optional(self@),
            r.wf(),
    {
        let ghost g = self@;
        let mut graph = self.graph;
        let n = graph.len();
        graph[0].add_epsilon(n - 1);
        let r = NFA { graph };
        proof {
            lemma_add_eps_wf(g, 0, (g.len() - 1) as usize);
        }
        assert(r@ =~= spec_optional(g));
        r
    }

    /// Zero or more: `plus`, then `optional`.
    pub fn star(self) -> (r: Self)
        requires
            self.wf(),
        ensures
            r@ == spec_star(self@),
            r.wf(),
    {
        self.plus().optional()
    }
}

/// Whether `range(from, to)` is malformed: an upper bound below the lower one.
pub open spec fn malformed(from: nat, to: Option<usize>) -> bool {
    match to {
        Some(x) => x < from,
        None => false,
    }
}

proof fn lemma_add_eps_cloned<T: Clone>(a: Seq<NodeModel<T>>, b: Seq<NodeModel<T>>, i: int, x: usize)
    requires
        graph_cloned(a, b),
        0 <= i < a.len(),
    ensures
        graph_cloned(add_eps(a, i, x), add_eps(b, i, x)),
{
    assert(node_cloned(a[i], b[i]));
}

proof fn lemma_shift_cloned<T: Clone>(a: Seq<NodeModel<T>>, b: Seq<NodeModel<T>>, off: nat)
    requires
        graph_cloned(a, b),
    ensures
        graph_cloned(shift_graph(a, off), shift_graph(b, off)),
{
    assert forall|i: int| 0 <= i < a.len() implies node_cloned(
        #[trigger] shift_graph(a, off)[i],
        shift_graph(b, off)[i],
    ) by {
        assert(node_cloned(a[i], b[i]));
        let sa = shift_graph(a, off)[i];
        let sb = shift_graph(b, off)[i];
        assert forall|k: int| 0 <= k < sa.keys.len() implies {
            &&& (#[trigger] sa.keys[k]).1 == sb.keys[k].1
            &&& cloned::<T>(sa.keys[k].0, sb.keys[k].0)
        } by {
            assert(a[i].keys[k].1 == b[i].keys[k].1);
        }
    }
}

/// Concatenation of clones is a clone of the concatenation.
proof fn lemma_and_cloned<T: Clone>(
    a: Seq<NodeModel<T>>,
    a2: Seq<NodeModel<T>>,
    b: Seq<NodeModel<T>>,
    b2: Seq<NodeModel<T>>,
)
    requires
        graph_cloned(a, a2),
        graph_cloned(b, b2),
        a.len() >= 1,
    ensures
        graph_cloned(spec_and(a, b), spec_and(a2, b2)),
{
    lemma_add_eps_cloned(a, a2, a.len() - 1, a.len() as usize);
    lemma_shift_cloned(b, b2, a.len());
    let l = add_eps(a, a.len() - 1, a.len() as usize);
    let l2 = add_eps(a2, a.len() - 1, a.len() as usize);
    let r = spec_and(a, b);
    let r2 = spec_and(a2, b2);
    assert forall|i: int| 0 <= i < r.len() implies node_cloned(#[trigger] r[i], r2[i]) by {
        if i < a.len() {
            assert(node_cloned(l[i], l2[i]));
        } else {
            assert(node_cloned(shift_graph(b, a.len())[i - a.len()], shift_graph(b2, a.len())[i - a.len()]));
        }
    }
}

proof fn lemma_repeat<T>(g: Seq<NodeModel<T>>, n: nat)
    requires
        graph_wf(g),
        1 + n * g.len() <= usize::MAX,
    ensures
        repeat(g, n).len() == 1 + n * g.len(),
        repeat_optional(g, n).len() == 1 + n * g.len(),
        graph_wf(repeat(g, n)),
        graph_wf(repeat_optional(g, n)),
    decreases n,
{
    if n == 0 {
        assert(node_wf(single::<T>()[0], 1));
        assert(repeat(g, 0) == single::<T>());
        assert(repeat_optional(g, 0) == single::<T>());
        assert(0 * g.len() == 0);
    } else {
        let m = (n - 1) as nat;
        assert(repeat(g, n) == spec_and(repeat(g, m), g));
        assert(repeat_optional(g, n) == spec_and(repeat_optional(g, m), spec_optional(g)));
        assert(1 + m * g.len() + g.len() == 1 + n * g.len()) by (nonlinear_arith)
            requires m + 1 == n;
        assert(m * g.len() <= n * g.len()) by (nonlinear_arith)
            requires m + 1 == n;
        lemma_repeat(g, m);
        lemma_and_wf(repeat(g, m), g);
        lemma_add_eps_wf(g, 0, (g.len() - 1) as usize);
        lemma_and_wf(repeat_optional(g, m), spec_optional(g));
    }
}

impl<T: Clone> Clone for NFA<T> {
    /// A deep copy: a fresh arena with one copy of each node, each symbol
    /// cloned. References are positions in the arena, so the copies refer to
    /// each other exactly as the originals did.
    fn clone(&self) -> (r: Self)
        ensures
            graph_cloned(self@, r@),
    {
        let mut graph: Vec<Node<T>> = Vec::new();
        let mut i: usize = 0;
        while i < self.graph.len()
            invariant
                i <= self@.len(),
                graph@.len() == i,
                forall|j: int| 0 <= j < i ==> node_cloned(self@[j], #[trigger] nodes_view(graph@)[j]),
            decreases self@.len() - i,
        {
            let c = self.graph[i].duplicate();
            let ghost prev = nodes_view(graph@);
            graph.push(c);
            assert(nodes_view(graph@) =~= prev.push(c@));
            i = i + 1;
        }
        NFA { graph }
    }
}

impl<T: Clone> NFA<T> {
    /// Bounded repetition `{from,to}`, or `{from,}` where `to` is `None`:
    /// `from` mandatory copies, then `to - from` optional copies, or one
    /// starred copy, each copy with nodes of its own. An upper bound below
    /// the lower one is refused.
    pub fn range(self, from: usize, to: Option<usize>) -> (r: Result<Self, RangeError>)
        requires
            self.wf(),
            range_fits(self@.len(), from as nat, to),
        ensures
            match r {
                Ok(n) => !malformed(from as nat, to) && n.wf() && graph_cloned(
                    spec_range(self@, from as nat, to),
                    n@,
                ),
                Err(e) => malformed(from as nat, to) && e == RangeError::MalformedRange,
            },
    {
        if let Some(x) = to {
            if x < from {
                return Err(RangeError::MalformedRange);
            }
        }
        let ghost g = self@;
        let ghost len = g.len();
        let ghost top: nat = match to {
            Some(x) => x as nat,
            None => (from + 1) as nat,
        };
        assert(from * len <= top * len) by (nonlinear_arith)
            requires from <= top;
        assert(1 + top * len <= usize::MAX);
        proof {
            lemma_repeat(g, from as nat);
        }
        let mut head = NFA::default();
        let mut i: usize = 0;
        while i < from
            invariant
                i <= from,
                self@ == g,
                graph_wf(g),
                len == g.len(),
                1 + from * len <= usize::MAX,
                head.wf(),
                head@.len() == 1 + i * len,
                graph_cloned(repeat(g, i as nat), head@),
            decreases from - i,
        {
            assert(1 + i * len + len == 1 + (i + 1) * len) by (nonlinear_arith);
            assert((i + 1) * len <= from * len) by (nonlinear_arith)
                requires i + 1 <= from;
            let c = self.clone();
            proof {
                lemma_cloned_wf(g, c@);
                lemma_and_cloned(repeat(g, i as nat), head@, g, c@);
            }
            head = head.and(c);
            i = i + 1;
        }
        let built = match to {
            Some(x) => {
                let n: usize = x - from;
                assert(1 + from * len + 1 + n * len == 2 + x * len) by (nonlinear_arith)
                    requires n == x - from;
                let mut tail = NFA::default();
                let mut k: usize = 0;
                while k < n
                    invariant
                        k <= n,
                        self@ == g,
                        graph_wf(g),
                        len == g.len(),
                        1 + n * len <= usize::MAX,
                        tail.wf(),
                        tail@.len() == 1 + k * len,
                        graph_cloned(repeat_optional(g, k as nat), tail@),
                    decreases n - k,
                {
                    assert(1 + k * len + len == 1 + (k + 1) * len) by (nonlinear_arith);
                    assert((k + 1) * len <= n * len) by (nonlinear_arith)
                        requires k + 1 <= n;
                    let c = self.clone();
                    proof {
                        lemma_cloned_wf(g, c@);
                        lemma_add_eps_cloned(g, c@, 0, (len - 1) as usize);
                    }
                    let c = c.optional();
                    proof {
                        lemma_and_cloned(repeat_optional(g, k as nat), tail@, spec_optional(g), c@);
                    }
                    tail = tail.and(c);
                    k = k + 1;
                }
                proof {
                    lemma_and_cloned(repeat(g, from as nat), head@, repeat_optional(g, n as nat), tail@);
                }
                head.and(tail)
            },
            None => {
                let c = self.clone();
                proof {
                    lemma_cloned_wf(g, c@);
                    lemma_add_eps_cloned(g, c@, len - 1, 0);
                    lemma_add_eps_cloned(spec_plus(g), spec_plus(c@), 0, (len - 1) as usize);
                }
                let c = c.star();
                assert(1 + from * len + len == 1 + (from + 1) * len) by (nonlinear_arith);
                proof {
                    lemma_and_cloned(repeat(g, from as nat), head@, spec_star(g), c@);
                }
                head.and(c)
            },
        };
        Ok(built)
    }
}

/// Whether node `m` holds a reference at slot `(k, j)`: the `j`-th epsilon
/// target where `k` is negative, the `j`-th target of the `k`-th symbol
/// otherwise.
pub open spec fn has_ref<T>(m: NodeModel<T>, k: int, j: int) -> bool {
    if k < 0 {
        0 <= j < m.eps.len()
    } else {
        k < m.keys.len() && 0 <= j < m.keys[k].1.len()
    }
}

/// The reference that node `m` holds at slot `(k, j)`.
pub open spec fn ref_at<T>(m: NodeModel<T>, k: int, j: int) -> usize {
    if k < 0 {
        m.eps[j]
    } else {
        m.keys[k].1[j]
    }
}

/// A clone keeps the topology of the automaton: it holds a reference at
/// exactly the slots where the original does, and two references of the
/// clone name the same node exactly where the corresponding two references
/// of the original do.
pub proof fn lemma_clone_keeps_aliasing<T: Clone>(a: NFA<T>, b: NFA<T>)
    requires
        graph_cloned(a@, b@),
    ensures
        a@.len() == b@.len(),
        forall|i: int, k: int, j: int|
            0 <= i < a@.len() ==> (#[trigger] has_ref(a@[i], k, j) <==> has_ref(b@[i], k, j)),
        forall|i1: int, k1: int, j1: int, i2: int, k2: int, j2: int|
            0 <= i1 < a@.len() && 0 <= i2 < a@.len() && has_ref(a@[i1], k1, j1) && has_ref(
                a@[i2],
                k2,
                j2,
            ) ==> ((#[trigger] ref_at(a@[i1], k1, j1) == #[trigger] ref_at(a@[i2], k2, j2))
                <==> (ref_at(b@[i1], k1, j1) == ref_at(b@[i2], k2, j2))),
{
    assert forall|i: int, k: int, j: int| 0 <= i < a@.len() implies (#[trigger] has_ref(a@[i], k, j)
        <==> has_ref(b@[i], k, j)) && (has_ref(a@[i], k, j) ==> ref_at(a@[i], k, j) == ref_at(
        b@[i],
        k,
        j,
    )) by {
        assert(node_cloned(a@[i], b@[i]));
        if k >= 0 && k < a@[i].keys.len() {
            assert(a@[i].keys[k].1 == b@[i].keys[k].1);
        }
    }
}

/// Remapping every node of a graph through one shared table that sends
/// distinct references to distinct nodes keeps its topology: each node holds
/// a reference at the same slots as before, each reference is the table's
/// image of the old one, and two references name the same node afterwards
/// exactly where they did before.
pub proof fn lemma_remap_keeps_aliasing<T>(g: Seq<NodeModel<T>>, table: Seq<usize>)
    requires
        forall|i: int|
            0 <= i < g.len() ==> {
                &&& (#[trigger] g[i]).eps.no_duplicates()
                &&& forall|k: int| 0 <= k < g[i].keys.len() ==> (#[trigger] g[i].keys[k]).1.no_duplicates()
            },
        forall|x: usize, y: usize| #[trigger] lookup(table, x) == #[trigger] lookup(table, y) ==> x == y,
    ensures
        ({
            let h = g.map_values(|m: NodeModel<T>| remap_node(m, table));
            &&& forall|i: int, k: int, j: int|
                0 <= i < g.len() ==> (#[trigger] has_ref(g[i], k, j) <==> has_ref(h[i], k, j))
            &&& forall|i: int, k: int, j: int|
                0 <= i < g.len() && has_ref(g[i], k, j) ==> #[trigger] ref_at(h[i], k, j) == lookup(
                    table,
                    ref_at(g[i], k, j),
                )
            &&& forall|i1: int, k1: int, j1: int, i2: int, k2: int, j2: int|
                0 <= i1 < g.len() && 0 <= i2 < g.len() && has_ref(g[i1], k1, j1) && has_ref(
                    g[i2],
                    k2,
                    j2,
                ) ==> ((#[trigger] ref_at(g[i1], k1, j1) == #[trigger] ref_at(g[i2], k2, j2))
                    <==> (ref_at(h[i1], k1, j1) == ref_at(h[i2], k2, j2)))
        }),
{
    let h = g.map_values(|m: NodeModel<T>| remap_node(m, table));
    assert forall|i: int, k: int, j: int| 0 <= i < g.len() implies (#[trigger] has_ref(g[i], k, j)
        <==> has_ref(h[i], k, j)) && (has_ref(g[i], k, j) ==> ref_at(h[i], k, j) == lookup(
        table,
        ref_at(g[i], k, j),
    )) by {
        lemma_remap_one_to_one(g[i].eps, table);
        if 0 <= k < g[i].keys.len() {
            lemma_remap_one_to_one(g[i].keys[k].1, table);
        }
    }
    assert forall|i1: int, k1: int, j1: int, i2: int, k2: int, j2: int|
        0 <= i1 < g.len() && 0 <= i2 < g.len() && has_ref(g[i1], k1, j1) && has_ref(
            g[i2],
            k2,
            j2,
        ) implies ((#[trigger] ref_at(g[i1], k1, j1) == #[trigger] ref_at(g[i2], k2, j2)) <==> (
    ref_at(h[i1], k1, j1) == ref_at(h[i2], k2, j2))) by {
        assert(has_ref(g[i1], k1, j1));
        assert(has_ref(g[i2], k2, j2));
        let x = ref_at(g[i1], k1, j1);
        let y = ref_at(g[i2], k2, j2);
        if lookup(table, x) == lookup(table, y) {
            assert(x == y);
        }
    }
}

} // verus!
