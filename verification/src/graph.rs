//! Definition of graphs.
use crate::model::{
    closed_graph, finite_graph, has_edge, in_degree_of, lemma_directed_edge_in_degree, mirrors,
    symmetric_graph, with_arc, with_directed_edge, with_directed_edges,
    with_directed_edges_reversed, with_node, with_undirected_edge, with_undirected_edges,
};
use std::collections::{HashMap, HashSet};
use std::fmt::Debug;
use std::hash::Hash;
use std::marker::PhantomData;
use vstd::laws_eq::obeys_concrete_eq;
use vstd::prelude::*;
use vstd::std_specs::hash::*;
use vstd::std_specs::iter::IteratorSpec;

verus! {

/// An undirected graph type.
#[derive(Debug)]
pub struct Undirected {}

/// A directed graph type.
#[derive(Debug)]
pub struct Directed {}

/// A graph type.
pub trait GraphType {
    /// Whether graphs of this type keep the direction of their edges.
    spec fn directed() -> bool;
}

impl GraphType for Undirected {
    open spec fn directed() -> bool {
        false
    }
}

impl GraphType for Directed {
    open spec fn directed() -> bool {
        true
    }
}

/// What the graph asks of its node type: hashing and `==` agree with
/// mathematical equality, and a clone equals the value it was made from.
/// For the integer types this follows from
/// `vstd::std_specs::hash::group_hash_axioms` and
/// `vstd::laws_eq::group_laws_eq`.
pub open spec fn valid_node<T: Clone + Hash + Eq>() -> bool {
    &&& obeys_key_model::<T>()
    &&& obeys_concrete_eq::<T>()
    &&& forall|a: T, b: T| #[trigger] call_ensures(T::clone, (&a,), b) ==> a == b
}

/// A copy of `x`.
pub(crate) fn duplicate<T: Clone + Hash + Eq>(x: &T) -> (y: T)
    requires
        valid_node::<T>(),
    ensures
        y == *x,
{
    x.clone()
}

/// Whether `a` and `b` are the same node.
pub(crate) fn same_node<T: Clone + Hash + Eq>(a: &T, b: &T) -> (r: bool)
    requires
        valid_node::<T>(),
    ensures
        r == (*a == *b),
{
    proof {
        reveal(obeys_concrete_eq);
    }
    *a == *b
}

/// A graph object.
#[derive(Debug)]
pub struct Graph<T, G = Undirected> where T: Clone + Hash + Eq + Debug, G: GraphType {
    adj: HashMap<T, HashSet<T>>,
    pred: HashMap<T, HashSet<T>>,
    typ: PhantomData<G>,
}

/// An alias for a directed graph.
pub type DiGraph<T> = Graph<T, Directed>;

impl<T, G> View for Graph<T, G> where T: Clone + Hash + Eq + Debug, G: GraphType {
    type V = Map<T, Set<T>>;

    /// The adjacency of the graph: each node with the set of its successors.
    closed spec fn view(&self) -> Map<T, Set<T>> {
        Map::new(|k: T| self.adj@.contains_key(k), |k: T| self.adj@[k]@)
    }
}

impl<T, G> Default for Graph<T, G> where T: Clone + Hash + Eq + Debug, G: GraphType {
    fn default() -> (g: Self)
        ensures
            g@ == Map::<T, Set<T>>::empty(),
            g.preds() == Map::<T, Set<T>>::empty(),
            g.wf(),
    {
        Self::new()
    }
}

impl<T, G> Graph<T, G> where T: Clone + Hash + Eq + Debug, G: GraphType {
    /// The predecessor index: for a directed graph each node with the set of
    /// the nodes that have an edge into it; empty for an undirected graph.
    pub closed spec fn preds(&self) -> Map<T, Set<T>> {
        Map::new(|k: T| self.pred@.contains_key(k), |k: T| self.pred@[k]@)
    }

    /// The invariant of the store.
    pub open spec fn wf(&self) -> bool {
        &&& finite_graph(self@)
        &&& closed_graph(self@)
        &&& if G::directed() {
            mirrors(self@, self.preds())
        } else {
            symmetric_graph(self@) && self.preds() == Map::<T, Set<T>>::empty()
        }
    }

    /// Create an empty graph.
    pub fn new() -> (g: Self)
        ensures
            g@ == Map::<T, Set<T>>::empty(),
            g.preds() == Map::<T, Set<T>>::empty(),
            g.wf(),
    {
        Graph { adj: HashMap::new(), pred: HashMap::new(), typ: PhantomData }
    }

    /// Iterate over a graph, i.e. over its keys.
    pub fn iter(&self) -> (keys: impl Iterator<Item = &T>)
        requires
            valid_node::<T>(),
        ensures
            keys.obeys_prophetic_iter_laws(),
            keys.remaining().no_duplicates(),
            keys.remaining().unref().to_set() == self@.dom(),
            keys.remaining().len() == self@.dom().len(),
            IteratorSpec::decrease(&keys) is Some,
    {
        broadcast use group_hash_axioms;

        self.adj.keys()
    }

    /// Get all nodes from a graph.
    pub fn nodes(&self) -> (all: Vec<T>)
        requires
            valid_node::<T>(),
        ensures
            all@.no_duplicates(),
            all@.to_set() == self@.dom(),
    {
        broadcast use group_hash_axioms;

        let mut all: Vec<T> = Vec::new();
        let ghost order = spec_keys_iter(&self.adj).remaining();
        for k in it: self.adj.keys()
            invariant
                valid_node::<T>(),
                it.seq() == order,
                all@.len() == it.index(),
                forall|i: int| 0 <= i < all@.len() ==> all@[i] == *order[i],
        {
            all.push(duplicate(k));
        }
        proof {
            assert(all@ =~= order.unref());
        }
        all
    }

    /// Get adjacent elements in a graph.
    pub fn adj(&self, u: &T) -> (found: Option<&HashSet<T>>)
        requires
            valid_node::<T>(),
        ensures
            found is Some <==> self@.contains_key(*u),
            found matches Some(s) ==> s@ == self@[*u],
    {
        broadcast use group_hash_axioms;

        self.adj.get(u)
    }

    /// Adds a directed edge from u to v (u->v).
    fn add_directed_edge(&mut self, u: T, v: T)
        requires
            valid_node::<T>(),
        ensures
            final(self)@ == with_arc(old(self)@, u, v),
            final(self).preds() == old(self).preds(),
    {
        broadcast use group_hash_axioms;

        self.adj.entry(u).or_insert(HashSet::new()).insert(v);
    }

    /// Get all edges of a graph: every pair `(u, v)` with `v` adjacent to `u`.
    pub fn edges(&self) -> (all: Vec<(T, T)>)
        requires
            valid_node::<T>(),
        ensures
            all@.no_duplicates(),
            forall|u: T, v: T| all@.contains((u, v)) <==> has_edge(self@, u, v),
    {
        broadcast use group_hash_axioms;

        let mut all: Vec<(T, T)> = Vec::new();
        let ghost order = spec_keys_iter(&self.adj).remaining();
        for k in it: self.adj.keys()
            invariant
                valid_node::<T>(),
                it.seq() == order,
                order.no_duplicates(),
                order.unref().to_set() == self@.dom(),
                edges_of_first(self@, order, it.index(), all@),
        {
            let ghost at = it.index();
            let ghost before = all@;
            let targets = self.adj.get(k).unwrap();
            let ghost inner = spec_hash_keys_iter(targets).remaining();
            for w in jt: targets.iter()
                invariant
                    valid_node::<T>(),
                    jt.seq() == inner,
                    all@.len() == before.len() + jt.index(),
                    forall|i: int| 0 <= i < before.len() ==> all@[i] == before[i],
                    forall|j: int|
                        0 <= j < jt.index() ==> all@[before.len() + j] == (*k, *inner[j]),
            {
                let pair = (duplicate(k), duplicate(w));
                all.push(pair);
            }
            proof {
                lemma_edges_of_next(self@, order, at, before, inner, all@);
            }
        }
        all
    }
}

impl<T> Graph<T, Undirected> where T: Clone + Hash + Eq + Debug {
    /// Whether the graph keeps the direction of its edges: it does not.
    pub fn is_directed() -> (directed: bool)
        ensures
            !directed,
    {
        false
    }

    /// Add a node. Do nothing if it already exists.
    pub fn add_node(&mut self, u: T)
        requires
            valid_node::<T>(),
            old(self).wf(),
        ensures
            final(self).wf(),
            final(self)@ == with_node(old(self)@, u),
            final(self)@.contains_key(u),
    {
        broadcast use group_hash_axioms;

        self.adj.entry(u).or_insert(HashSet::new());
        proof {
            assert(self@ =~= with_node(old(self)@, u));
            lemma_node_keeps_shape(old(self)@, old(self).preds(), u);
        }
    }

    /// Adds an edge in a graph (u<->v).
    pub fn add_edge(&mut self, u: T, v: T)
        requires
            valid_node::<T>(),
            old(self).wf(),
        ensures
            final(self).wf(),
            final(self)@ == with_undirected_edge(old(self)@, u, v),
            has_edge(final(self)@, u, v),
            has_edge(final(self)@, v, u),
    {
        self.add_directed_edge(duplicate(&u), duplicate(&v));
        self.add_directed_edge(v, u);
        proof {
            lemma_undirected_edge_keeps_shape(old(self)@, u, v);
        }
    }

    /// Add many edges at once
    pub fn add_edges_from(&mut self, edges: Vec<(T, T)>)
        requires
            valid_node::<T>(),
            old(self).wf(),
        ensures
            final(self).wf(),
            final(self)@ == with_undirected_edges(old(self)@, edges@),
    {
        for i in 0..edges.len()
            invariant
                valid_node::<T>(),
                self.wf(),
                self@ == with_undirected_edges(old(self)@, edges@.take(i as int)),
        {
            let edge = &edges[i];
            proof {
                assert(edges@.take(i + 1).drop_last() == edges@.take(i as int));
            }
            self.add_edge(duplicate(&edge.0), duplicate(&edge.1));
        }
        proof {
            assert(edges@.take(edges@.len() as int) == edges@);
        }
    }
}

impl<T> Graph<T, Directed> where T: Clone + Hash + Eq + Debug {
    /// Whether the graph keeps the direction of its edges: it does.
    pub fn is_directed() -> (directed: bool)
        ensures
            directed,
    {
        true
    }

    /// Add a node. Do nothing if it already exists.
    pub fn add_node(&mut self, u: T)
        requires
            valid_node::<T>(),
            old(self).wf(),
        ensures
            final(self).wf(),
            final(self)@ == with_node(old(self)@, u),
            final(self).preds() == with_node(old(self).preds(), u),
            final(self)@.contains_key(u),
    {
        broadcast use group_hash_axioms;

        self.adj.entry(duplicate(&u)).or_insert(HashSet::new());
        self.pred.entry(u).or_insert(HashSet::new());
        proof {
            assert(self@ =~= with_node(old(self)@, u));
            assert(self.preds() =~= with_node(old(self).preds(), u));
            lemma_node_keeps_shape(old(self)@, old(self).preds(), u);
        }
    }

    /// Adds an edge in a graph (u->v).
    pub fn add_edge(&mut self, u: T, v: T)
        requires
            valid_node::<T>(),
            old(self).wf(),
        ensures
            final(self).wf(),
            final(self)@ == with_directed_edge(old(self)@, u, v),
            final(self).preds() == with_directed_edge(old(self).preds(), v, u),
            has_edge(final(self)@, u, v),
            !has_edge(old(self)@, u, v) ==> in_degree_of(final(self).preds(), v) == in_degree_of(
                old(self).preds(),
                v,
            ) + 1,
            has_edge(old(self)@, u, v) ==> in_degree_of(final(self).preds(), v) == in_degree_of(
                old(self).preds(),
                v,
            ),
            forall|x: T|
                x != v ==> in_degree_of(final(self).preds(), x) == in_degree_of(
                    old(self).preds(),
                    x,
                ),
    {
        broadcast use group_hash_axioms;

        self.adj.entry(duplicate(&u)).or_insert(HashSet::new()).insert(duplicate(&v));
        self.adj.entry(duplicate(&v)).or_insert(HashSet::new());

        self.pred.entry(duplicate(&v)).or_insert(HashSet::new()).insert(duplicate(&u));
        self.pred.entry(u).or_insert(HashSet::new());
        proof {
            assert(self@ =~= with_directed_edge(old(self)@, u, v));
            assert(self.preds() =~= with_directed_edge(old(self).preds(), v, u));
            lemma_directed_edge_keeps_shape(old(self)@, old(self).preds(), u, v);
            lemma_directed_edge_in_degree(old(self)@, old(self).preds(), u, v);
        }
    }

    /// Add many edges at once
    pub fn add_edges_from(&mut self, edges: Vec<(T, T)>)
        requires
            valid_node::<T>(),
            old(self).wf(),
        ensures
            final(self).wf(),
            final(self)@ == with_directed_edges(old(self)@, edges@),
            final(self).preds() == with_directed_edges_reversed(old(self).preds(), edges@),
    {
        for i in 0..edges.len()
            invariant
                valid_node::<T>(),
                self.wf(),
                self@ == with_directed_edges(old(self)@, edges@.take(i as int)),
                self.preds() == with_directed_edges_reversed(
                    old(self).preds(),
                    edges@.take(i as int),
                ),
        {
            let edge = &edges[i];
            proof {
                assert(edges@.take(i + 1).drop_last() == edges@.take(i as int));
            }
            self.add_edge(duplicate(&edge.0), duplicate(&edge.1));
        }
        proof {
            assert(edges@.take(edges@.len() as int) == edges@);
        }
    }

    /// The number of edges into `u`; 0 where `u` is not a node.
    pub fn in_degree(&self, u: &T) -> (n: usize)
        requires
            valid_node::<T>(),
        ensures
            n == in_degree_of(self.preds(), *u),
    {
        broadcast use group_hash_axioms;

        match self.pred.get(u) {
            Some(v) => v.len(),
            _ => 0,
        }
    }

    /// The in-degree of every node.
    pub fn in_degree_map(&self) -> (degrees: HashMap<T, usize>)
        requires
            valid_node::<T>(),
        ensures
            degrees@.dom() == self@.dom(),
            forall|u: T|
                self@.contains_key(u) ==> #[trigger] degrees@[u] == in_degree_of(self.preds(), u),
    {
        broadcast use group_hash_axioms;

        let nodes = self.nodes();
        let mut degrees: HashMap<T, usize> = HashMap::new();
        for i in 0..nodes.len()
            invariant
                valid_node::<T>(),
                degrees@.dom() == nodes@.take(i as int).to_set(),
                forall|u: T|
                    degrees@.contains_key(u) ==> #[trigger] degrees@[u] == in_degree_of(
                        self.preds(),
                        u,
                    ),
        {
            let n = &nodes[i];
            proof {
                assert(nodes@.take(i + 1) == nodes@.take(i as int).push(*n));
                lemma_push_to_set(nodes@.take(i as int), *n);
            }
            degrees.insert(duplicate(n), self.in_degree(n));
        }
        proof {
            assert(nodes@.take(nodes@.len() as int) == nodes@);
        }
        degrees
    }
}

/// The set of a sequence with one more item is the set with that item.
pub(crate) proof fn lemma_push_to_set<T>(s: Seq<T>, x: T)
    ensures
        s.push(x).to_set() == s.to_set().insert(x),
{
    assert forall|y: T| s.push(x).to_set().contains(y) <==> s.to_set().insert(x).contains(y) by {
        if s.to_set().contains(y) {
            let i = choose|i: int| 0 <= i < s.len() && s[i] == y;
            assert(s.push(x)[i] == y);
        }
        if y == x {
            assert(s.push(x)[s.len() as int] == x);
        }
    }
}

/// A new node keeps the invariant of a graph of either kind.
proof fn lemma_node_keeps_shape<T>(m: Map<T, Set<T>>, p: Map<T, Set<T>>, u: T)
    requires
        finite_graph(m),
        closed_graph(m),
    ensures
        finite_graph(with_node(m, u)),
        closed_graph(with_node(m, u)),
        symmetric_graph(m) ==> symmetric_graph(with_node(m, u)),
        mirrors(m, p) ==> mirrors(with_node(m, u), with_node(p, u)),
{
    let m_new = with_node(m, u);
    let p_new = with_node(p, u);
    assert forall|a: T, b: T| has_edge(m_new, a, b) <==> has_edge(m, a, b) by {}
    assert forall|a: T, b: T| has_edge(p_new, a, b) <==> has_edge(p, a, b) by {}
}

/// A new undirected edge keeps the invariant of an undirected graph.
proof fn lemma_undirected_edge_keeps_shape<T>(m: Map<T, Set<T>>, u: T, v: T)
    requires
        finite_graph(m),
        closed_graph(m),
        symmetric_graph(m),
    ensures
        finite_graph(with_undirected_edge(m, u, v)),
        closed_graph(with_undirected_edge(m, u, v)),
        symmetric_graph(with_undirected_edge(m, u, v)),
        has_edge(with_undirected_edge(m, u, v), u, v),
        has_edge(with_undirected_edge(m, u, v), v, u),
{
    let m_new = with_undirected_edge(m, u, v);
    assert forall|a: T, b: T|
        has_edge(m_new, a, b) <==> has_edge(m, a, b) || (a == u && b == v) || (a == v && b
            == u) by {}
}

/// A new directed edge keeps the invariant of a directed graph.
proof fn lemma_directed_edge_keeps_shape<T>(m: Map<T, Set<T>>, p: Map<T, Set<T>>, u: T, v: T)
    requires
        finite_graph(m),
        closed_graph(m),
        mirrors(m, p),
    ensures
        finite_graph(with_directed_edge(m, u, v)),
        closed_graph(with_directed_edge(m, u, v)),
        mirrors(with_directed_edge(m, u, v), with_directed_edge(p, v, u)),
{
    let m_new = with_directed_edge(m, u, v);
    let p_new = with_directed_edge(p, v, u);
    assert(m_new.dom() =~= p_new.dom());
    assert forall|a: T, b: T| has_edge(m_new, a, b) <==> has_edge(p_new, b, a) by {
        assert(has_edge(m_new, a, b) <==> has_edge(m, a, b) || (a == u && b == v));
    }
}

/// `all` lists, once each, the edges that leave the first `n` nodes of `order`.
spec fn edges_of_first<T>(m: Map<T, Set<T>>, order: Seq<&T>, n: int, all: Seq<(T, T)>) -> bool {
    &&& all.no_duplicates()
    &&& forall|idx: int|
        0 <= idx < all.len() ==> has_edge(m, (#[trigger] all[idx]).0, all[idx].1) && exists|i: int|
            0 <= i < n && *order[i] == all[idx].0
    &&& forall|i: int, v: T|
        0 <= i < n && #[trigger] m[*order[i]].contains(v) ==> all.contains((*order[i], v))
}

/// Appending the edges that leave the next node keeps `edges_of_first`.
proof fn lemma_edges_of_next<T>(
    m: Map<T, Set<T>>,
    order: Seq<&T>,
    at: int,
    before: Seq<(T, T)>,
    inner: Seq<&T>,
    all: Seq<(T, T)>,
)
    requires
        0 <= at < order.len(),
        order.no_duplicates(),
        m.contains_key(*order[at]),
        inner.no_duplicates(),
        inner.unref().to_set() == m[*order[at]],
        edges_of_first(m, order, at, before),
        all.len() == before.len() + inner.len(),
        forall|i: int| 0 <= i < before.len() ==> all[i] == before[i],
        forall|j: int| 0 <= j < inner.len() ==> all[before.len() + j] == (*order[at], *inner[j]),
    ensures
        edges_of_first(m, order, at + 1, all),
{
    let k = *order[at];
    assert forall|idx: int| 0 <= idx < all.len() implies has_edge(
        m,
        (#[trigger] all[idx]).0,
        all[idx].1,
    ) && exists|i: int| 0 <= i < at + 1 && *order[i] == all[idx].0 by {
        if idx >= before.len() {
            let j = idx - before.len();
            assert(inner.unref()[j] == *inner[j]);
        }
    }
    assert forall|a: int, b: int| 0 <= a < all.len() && 0 <= b < all.len() && a != b implies all[a]
        != all[b] by {
        if a >= before.len() {
            let ja = a - before.len();
            assert(all[before.len() + ja] == (k, *inner[ja]));
        }
        if b >= before.len() {
            let jb = b - before.len();
            assert(all[before.len() + jb] == (k, *inner[jb]));
        }
    }
}

} // verus!
