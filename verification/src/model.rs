//! The mathematical model of a graph: a map from each node to the set of its
//! successors, and the operations that grow it.
use vstd::prelude::*;

verus! {

/// `v` is a successor of `u`: the graph holds the edge `u -> v`.
pub open spec fn has_edge<T>(m: Map<T, Set<T>>, u: T, v: T) -> bool {
    m.contains_key(u) && m[u].contains(v)
}

/// The successor set of `u`, empty where `u` is not a node.
pub open spec fn successors<T>(m: Map<T, Set<T>>, u: T) -> Set<T> {
    if m.contains_key(u) {
        m[u]
    } else {
        Set::empty()
    }
}

/// The model after `u` has been added as a node: unchanged where `u` is
/// already one, else `u` with no successors.
pub open spec fn with_node<T>(m: Map<T, Set<T>>, u: T) -> Map<T, Set<T>> {
    if m.contains_key(u) {
        m
    } else {
        m.insert(u, Set::empty())
    }
}

/// The model after `v` has been added to the successors of `u`.
pub open spec fn with_arc<T>(m: Map<T, Set<T>>, u: T, v: T) -> Map<T, Set<T>> {
    m.insert(u, successors(m, u).insert(v))
}

/// The model of an undirected graph after the edge `u <-> v` has been added.
pub open spec fn with_undirected_edge<T>(m: Map<T, Set<T>>, u: T, v: T) -> Map<T, Set<T>> {
    with_arc(with_arc(m, u, v), v, u)
}

/// The model of a directed graph after the edge `u -> v` has been added.
pub open spec fn with_directed_edge<T>(m: Map<T, Set<T>>, u: T, v: T) -> Map<T, Set<T>> {
    with_node(with_arc(m, u, v), v)
}

/// The model of an undirected graph after the edges have been added in order.
pub open spec fn with_undirected_edges<T>(m: Map<T, Set<T>>, edges: Seq<(T, T)>) -> Map<T, Set<T>>
    decreases edges.len(),
{
    if edges.len() == 0 {
        m
    } else {
        let e = edges.last();
        with_undirected_edge(with_undirected_edges(m, edges.drop_last()), e.0, e.1)
    }
}

/// The model of a directed graph after the edges have been added in order.
pub open spec fn with_directed_edges<T>(m: Map<T, Set<T>>, edges: Seq<(T, T)>) -> Map<T, Set<T>>
    decreases edges.len(),
{
    if edges.len() == 0 {
        m
    } else {
        let e = edges.last();
        with_directed_edge(with_directed_edges(m, edges.drop_last()), e.0, e.1)
    }
}

/// The predecessor index that goes with `with_directed_edges`.
pub open spec fn with_directed_edges_reversed<T>(p: Map<T, Set<T>>, edges: Seq<(T, T)>) -> Map<
    T,
    Set<T>,
>
    decreases edges.len(),
{
    if edges.len() == 0 {
        p
    } else {
        let e = edges.last();
        with_directed_edge(with_directed_edges_reversed(p, edges.drop_last()), e.1, e.0)
    }
}

/// Every node has finitely many successors, and there are finitely many nodes.
pub open spec fn finite_graph<T>(m: Map<T, Set<T>>) -> bool {
    &&& m.dom().finite()
    &&& forall|u: T| m.contains_key(u) ==> (#[trigger] m[u]).finite()
}

/// Every successor of a node is itself a node.
pub open spec fn closed_graph<T>(m: Map<T, Set<T>>) -> bool {
    forall|u: T, v: T| has_edge(m, u, v) ==> m.contains_key(v)
}

/// Every edge is stored in both directions.
pub open spec fn symmetric_graph<T>(m: Map<T, Set<T>>) -> bool {
    forall|u: T, v: T| has_edge(m, u, v) ==> has_edge(m, v, u)
}

/// `p` is the predecessor index of `m`: the same nodes, every edge reversed.
pub open spec fn mirrors<T>(m: Map<T, Set<T>>, p: Map<T, Set<T>>) -> bool {
    &&& m.dom() == p.dom()
    &&& forall|u: T, v: T| has_edge(m, u, v) <==> has_edge(p, v, u)
}

/// The number of edges into `u`, read from the predecessor index `p`.
pub open spec fn in_degree_of<T>(p: Map<T, Set<T>>, u: T) -> nat {
    successors(p, u).len()
}

/// Adding a node makes it a node, and adding it again changes nothing:
/// neither the nodes nor what is adjacent to any of them.
pub proof fn lemma_add_node_idempotent<T>(m: Map<T, Set<T>>, u: T)
    ensures
        with_node(m, u).contains_key(u),
        with_node(with_node(m, u), u) == with_node(m, u),
{
}

/// An edge added to an undirected graph is there in both directions.
pub proof fn lemma_undirected_edge_both_ways<T>(m: Map<T, Set<T>>, u: T, v: T)
    ensures
        has_edge(with_undirected_edge(m, u, v), u, v),
        has_edge(with_undirected_edge(m, u, v), v, u),
{
}

/// A new edge `u -> v` of a directed graph raises the in-degree of `v` by
/// one and leaves that of every other node as it was; an edge that is
/// there already changes no in-degree.
pub proof fn lemma_directed_edge_in_degree<T>(m: Map<T, Set<T>>, p: Map<T, Set<T>>, u: T, v: T)
    requires
        finite_graph(m),
        mirrors(m, p),
    ensures
        has_edge(with_directed_edge(m, u, v), u, v),
        !has_edge(m, u, v) ==> in_degree_of(with_directed_edge(p, v, u), v) == in_degree_of(p, v)
            + 1,
        has_edge(m, u, v) ==> in_degree_of(with_directed_edge(p, v, u), v) == in_degree_of(p, v),
        forall|x: T| x != v ==> in_degree_of(with_directed_edge(p, v, u), x) == in_degree_of(p, x),
{
    if p.contains_key(v) {
        lemma_predecessors_finite(m, p, v);
    }
}

/// In a finite graph every node has finitely many predecessors.
pub proof fn lemma_predecessors_finite<T>(m: Map<T, Set<T>>, p: Map<T, Set<T>>, v: T)
    requires
        finite_graph(m),
        mirrors(m, p),
        p.contains_key(v),
    ensures
        p[v].finite(),
{
    assert(p[v].subset_of(m.dom())) by {
        assert forall|x: T| p[v].contains(x) implies m.dom().contains(x) by {
            assert(has_edge(p, v, x));
        }
    }
}

} // verus!
