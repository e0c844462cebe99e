use vstd::prelude::*;

verus! {

/// A node as mathematical values: its epsilon targets and, for each symbol it
/// consumes, the targets reached by consuming it. A reference is the index of
/// a node in the automaton that owns it.
pub struct NodeModel<T> {
    pub eps: Seq<usize>,
    pub keys: Seq<(T, Seq<usize>)>,
}

/// One state of an automaton. It refers to other states by index and owns
/// none of them.
pub struct Node<T> {
    empty: Vec<usize>,
    keys: Vec<(T, Vec<usize>)>,
}

/// The node with no edges.
pub open spec fn empty_node<T>() -> NodeModel<T> {
    NodeModel { eps: seq![], keys: seq![] }
}

/// `s` as a set of references: `x` is added at the end unless `s` holds it.
pub open spec fn with_target(s: Seq<usize>, x: usize) -> Seq<usize> {
    if s.contains(x) {
        s
    } else {
        s.push(x)
    }
}

/// Where the table sends reference `r`: `table[r]` where the table covers
/// `r`, and `r` itself elsewhere.
pub open spec fn lookup(table: Seq<usize>, r: usize) -> usize {
    if r < table.len() {
        table[r as int]
    } else {
        r
    }
}

/// Each reference of `s` sent through the table, in order, each result kept once.
pub open spec fn remap_targets(s: Seq<usize>, table: Seq<usize>) -> Seq<usize>
    decreases s.len(),
{
    if s.len() == 0 {
        seq![]
    } else {
        with_target(remap_targets(s.drop_last(), table), lookup(table, s.last()))
    }
}

/// Every reference held by the node sent through the table.
pub open spec fn remap_node<T>(m: NodeModel<T>, table: Seq<usize>) -> NodeModel<T> {
    NodeModel {
        eps: remap_targets(m.eps, table),
        keys: m.keys.map_values(|p: (T, Seq<usize>)| (p.0, remap_targets(p.1, table))),
    }
}

/// The node holds sets of references, each below `n`, and consumes at most
/// one symbol (the shape that the combinators build).
pub open spec fn node_wf<T>(m: NodeModel<T>, n: nat) -> bool {
    &&& m.eps.no_duplicates()
    &&& forall|j: int| 0 <= j < m.eps.len() ==> m.eps[j] < n
    &&& m.keys.len() <= 1
    &&& forall|k: int|
        0 <= k < m.keys.len() ==> {
            &&& (#[trigger] m.keys[k]).1.no_duplicates()
            &&& forall|j: int| 0 <= j < m.keys[k].1.len() ==> m.keys[k].1[j] < n
        }
}

/// Two nodes of the same shape whose symbols are clones of each other.
pub open spec fn node_cloned<T: Clone>(a: NodeModel<T>, b: NodeModel<T>) -> bool {
    &&& a.eps == b.eps
    &&& a.keys.len() == b.keys.len()
    &&& forall|k: int|
        0 <= k < a.keys.len() ==> {
            &&& (#[trigger] a.keys[k]).1 == b.keys[k].1
            &&& cloned::<T>(a.keys[k].0, b.keys[k].0)
        }
}

/// Adding a reference to a set keeps it a set, holding the old references and the new one.
pub proof fn lemma_with_target(s: Seq<usize>, x: usize)
    requires
        s.no_duplicates(),
    ensures
        with_target(s, x).no_duplicates(),
        forall|y: usize| with_target(s, x).contains(y) <==> (s.contains(y) || y == x),
{
    if !s.contains(x) {
        assert forall|y: usize| s.push(x).contains(y) <==> (s.contains(y) || y == x) by {
            if s.push(x).contains(y) {
                let j = choose|j: int| 0 <= j < s.push(x).len() && s.push(x)[j] == y;
                if j < s.len() {
                    assert(s[j] == y);
                }
            }
            if y == x {
                assert(s.push(x)[s.len() as int] == x);
            }
            if s.contains(y) {
                let j = choose|j: int| 0 <= j < s.len() && s[j] == y;
                assert(s.push(x)[j] == y);
            }
        }
    }
}

/// A table that adds `off` to every reference of a set below its length
/// sends the set to the set shifted by `off`, order kept.
pub proof fn lemma_remap_shift(s: Seq<usize>, table: Seq<usize>, off: nat)
    requires
        s.no_duplicates(),
        forall|j: int| 0 <= j < s.len() ==> s[j] < table.len(),
        forall|i: int| 0 <= i < table.len() ==> table[i] == i + off,
    ensures
        remap_targets(s, table) == s.map_values(|x: usize| (x + off) as usize),
    decreases s.len(),
{
    let f = |x: usize| (x + off) as usize;
    if s.len() > 0 {
        let p = s.drop_last();
        assert(p.no_duplicates());
        lemma_remap_shift(p, table, off);
        let x = s.last();
        assert(lookup(table, x) == f(x));
        assert(!p.map_values(f).contains(f(x))) by {
            if p.map_values(f).contains(f(x)) {
                let j = choose|j: int| 0 <= j < p.len() && p.map_values(f)[j] == f(x);
                assert(s[j] == p[j]);
                assert(table[p[j] as int] == p[j] + off);
                assert(table[x as int] == x + off);
                assert(s[j] != s[s.len() - 1]);
            }
        }
        assert(remap_targets(s, table) == with_target(remap_targets(p, table), lookup(table, x)));
        assert(s.map_values(f) =~= p.map_values(f).push(f(x)));
    } else {
        assert(remap_targets(s, table) =~= s.map_values(f));
    }
}

/// A table that sends distinct references to distinct ones maps a set of
/// references one for one, order kept.
pub proof fn lemma_remap_one_to_one(s: Seq<usize>, table: Seq<usize>)
    requires
        s.no_duplicates(),
        forall|x: usize, y: usize| #[trigger] lookup(table, x) == #[trigger] lookup(table, y) ==> x == y,
    ensures
        remap_targets(s, table) == s.map_values(|x: usize| lookup(table, x)),
    decreases s.len(),
{
    let f = |x: usize| lookup(table, x);
    if s.len() > 0 {
        let p = s.drop_last();
        assert(p.no_duplicates());
        lemma_remap_one_to_one(p, table);
        let x = s.last();
        assert(!p.map_values(f).contains(f(x))) by {
            if p.map_values(f).contains(f(x)) {
                let j = choose|j: int| 0 <= j < p.len() && p.map_values(f)[j] == f(x);
                assert(s[j] == p[j]);
                assert(s[j] != s[s.len() - 1]);
            }
        }
        assert(remap_targets(s, table) == with_target(remap_targets(p, table), lookup(table, x)));
        assert(s.map_values(f) =~= p.map_values(f).push(f(x)));
    } else {
        assert(remap_targets(s, table) =~= s.map_values(f));
    }
}

/// A copy of a set of references.
fn copy_targets(v: &Vec<usize>) -> (r: Vec<usize>)
    ensures
        r@ == v@,
{
    let mut r: Vec<usize> = Vec::new();
    let mut i: usize = 0;
    while i < v.len()
        invariant
            i <= v.len(),
            r@ == v@.subrange(0, i as int),
        decreases v.len() - i,
    {
        r.push(v[i]);
        i = i + 1;
        assert(r@ =~= v@.subrange(0, i as int));
    }
    assert(r@ =~= v@);
    r
}

/// Whether the set of references holds `x`.
fn holds(v: &Vec<usize>, x: usize) -> (r: bool)
    ensures
        r == v@.contains(x),
{
    let mut i: usize = 0;
    while i < v.len()
        invariant
            i <= v.len(),
            forall|j: int| 0 <= j < i ==> v@[j] != x,
        decreases v.len() - i,
    {
        if v[i] == x {
            return true;
        }
        i = i + 1;
    }
    false
}

/// Adds `x` to the set of references unless it holds it already.
fn insert_target(v: &mut Vec<usize>, x: usize)
    ensures
        final(v)@ == with_target(old(v)@, x),
{
    if !holds(v, x) {
        v.push(x);
    }
}

/// Sends every reference of the set through the table.
fn remap_vec(v: &Vec<usize>, table: &Vec<usize>) -> (r: Vec<usize>)
    ensures
        r@ == remap_targets(v@, table@),
{
    let mut r: Vec<usize> = Vec::new();
    let mut i: usize = 0;
    while i < v.len()
        invariant
            i <= v.len(),
            r@ == remap_targets(v@.subrange(0, i as int), table@),
        decreases v.len() - i,
    {
        let x = v[i];
        let y = if x < table.len() {
            table[x]
        } else {
            x
        };
        insert_target(&mut r, y);
        proof {
            let s = v@.subrange(0, i + 1);
            assert(s.drop_last() =~= v@.subrange(0, i as int));
        }
        i = i + 1;
    }
    assert(v@.subrange(0, v@.len() as int) =~= v@);
    r
}

impl<T> View for Node<T> {
    type V = NodeModel<T>;

    closed spec fn view(&self) -> NodeModel<T> {
        NodeModel {
            eps: self.empty@,
            keys: self.keys@.map_values(|p: (T, Vec<usize>)| (p.0, p.1@)),
        }
    }
}

impl<T> Default for Node<T> {
    /// A node with no edges.
    fn default() -> (r: Self)
        ensures
            r@ == empty_node::<T>(),
    {
        let r = Node { empty: Vec::new(), keys: Vec::new() };
        assert(r@.keys =~= seq![]);
        r
    }
}

impl<T> Node<T> {
    /// The epsilon targets of the node.
    pub fn epsilon(&self) -> (r: &Vec<usize>)
        ensures
            r@ == self@.eps,
    {
        &self.empty
    }

    /// The number of symbols that the node consumes.
    pub fn symbol_count(&self) -> (r: usize)
        ensures
            r == self@.keys.len(),
    {
        self.keys.len()
    }

    /// The `k`-th symbol that the node consumes.
    pub fn symbol(&self, k: usize) -> (r: &T)
        requires
            k < self@.keys.len(),
        ensures
            *r == self@.keys[k as int].0,
    {
        &self.keys[k].0
    }

    /// The targets reached by consuming the `k`-th symbol.
    pub fn targets(&self, k: usize) -> (r: &Vec<usize>)
        requires
            k < self@.keys.len(),
        ensures
            r@ == self@.keys[k as int].1,
    {
        &self.keys[k].1
    }

    /// Rewrites every reference held by the node through the table; a
    /// reference that the table does not cover stays as it is.
    pub fn remap(&mut self, table: &Vec<usize>)
        ensures
            final(self)@ == remap_node(old(self)@, table@),
    {
        let empty = remap_vec(&self.empty, table);
        let mut keys: Vec<(T, Vec<usize>)> = Vec::new();
        let ghost old_keys = self@.keys;
        let ghost table_v = table@;
        while self.keys.len() > 0
            invariant
                table_v == table@,
                self@.keys.len() + keys@.len() == old_keys.len(),
                forall|k: int| 0 <= k < self@.keys.len() ==> self@.keys[k] == old_keys[k],
                forall|k: int|
                    0 <= k < keys@.len() ==> {
                        &&& (#[trigger] keys@[k]).0 == old_keys[old_keys.len() - 1 - k].0
                        &&& keys@[k].1@ == remap_targets(
                            old_keys[old_keys.len() - 1 - k].1,
                            table_v,
                        )
                    },
            decreases self@.keys.len(),
        {
            let ghost last = self@.keys[self@.keys.len() - 1];
            let (sym, targets) = self.keys.pop().unwrap();
            assert(sym == last.0 && targets@ == last.1);
            let moved = remap_vec(&targets, table);
            let ghost k = keys@.len();
            assert(old_keys.len() - 1 - k == self@.keys.len());
            assert(last == old_keys[old_keys.len() - 1 - k]);
            keys.push((sym, moved));
            assert(keys@[k as int] == (sym, moved));
        }
        let mut rev: Vec<(T, Vec<usize>)> = Vec::new();
        while keys.len() > 0
            invariant
                keys@.len() + rev@.len() == old_keys.len(),
                forall|k: int|
                    0 <= k < keys@.len() ==> {
                        &&& (#[trigger] keys@[k]).0 == old_keys[old_keys.len() - 1 - k].0
                        &&& keys@[k].1@ == remap_targets(
                            old_keys[old_keys.len() - 1 - k].1,
                            table_v,
                        )
                    },
                forall|k: int|
                    0 <= k < rev@.len() ==> {
                        &&& (#[trigger] rev@[k]).0 == old_keys[k].0
                        &&& rev@[k].1@ == remap_targets(old_keys[k].1, table_v)
                    },
            decreases keys@.len(),
        {
            let p = keys.pop().unwrap();
            rev.push(p);
        }
        self.empty = empty;
        self.keys = rev;
        assert(self@.keys =~= remap_node(old(self)@, table@).keys);
    }

    /// Adds `x` to the epsilon targets.
    pub(crate) fn add_epsilon(&mut self, x: usize)
        ensures
            final(self)@ == (NodeModel { eps: with_target(old(self)@.eps, x), keys: old(self)@.keys }),
    {
        insert_target(&mut self.empty, x);
    }

    /// Gives a node that consumes nothing a transition on `value` to `x`.
    pub(crate) fn add_transition(&mut self, value: T, x: usize)
        requires
            old(self)@.keys.len() == 0,
        ensures
            final(self)@ == (NodeModel { eps: old(self)@.eps, keys: seq![(value, seq![x])] }),
    {
        let mut targets: Vec<usize> = Vec::new();
        targets.push(x);
        self.keys.push((value, targets));
        assert(self@.keys =~= seq![(value, seq![x])]);
    }
}

impl<T: Clone> Node<T> {
    /// A copy of the node, with each symbol cloned.
    pub(crate) fn duplicate(&self) -> (r: Self)
        ensures
            node_cloned(self@, r@),
    {
        let mut keys: Vec<(T, Vec<usize>)> = Vec::new();
        let mut i: usize = 0;
        while i < self.keys.len()
            invariant
                i <= self@.keys.len(),
                keys@.len() == i,
                forall|k: int|
                    0 <= k < i ==> {
                        &&& (#[trigger] keys@[k]).1@ == self@.keys[k].1
                        &&& cloned::<T>(self@.keys[k].0, keys@[k].0)
                    },
            decreases self@.keys.len() - i,
        {
            let sym = self.keys[i].0.clone();
            let targets = copy_targets(&self.keys[i].1);
            keys.push((sym, targets));
            i = i + 1;
        }
        Node { empty: copy_targets(&self.empty), keys }
    }
}

} // verus!
