//! The bookkeeping of a topological sort by in-degrees: for every node that
//! is not yet ready, the number of edges into it that are still to be struck
//! off.
use crate::model::{
    finite_graph, has_edge, in_degree_of, lemma_predecessors_finite, mirrors, successors,
};
use crate::order::{is_layer, placed_before, ready};
use vstd::prelude::*;

verus! {

/// The nodes with an edge into `v` that are not among `gone`.
pub open spec fn pending<T>(p: Map<T, Set<T>>, v: T, gone: Set<T>) -> Set<T> {
    successors(p, v).difference(gone)
}

/// The nodes whose edges are struck off as far as `v` goes: those of `gone`,
/// and `u` where `v` is among the successors of `u` that were `seen`.
pub open spec fn gone_for<T>(gone: Set<T>, u: T, seen: Set<T>, v: T) -> Set<T> {
    if seen.contains(v) {
        gone.insert(u)
    } else {
        gone
    }
}

/// The tally between two nodes of a generation. `gone` are the nodes whose
/// edges are all struck off, `skip` the nodes that are in a generation,
/// `fresh` the nodes that became ready, and `rem` holds, for every other
/// node, the number of edges into it that are left.
pub open spec fn counted<T>(
    m: Map<T, Set<T>>,
    p: Map<T, Set<T>>,
    gone: Set<T>,
    skip: Set<T>,
    rem: Map<T, usize>,
    fresh: Seq<T>,
) -> bool {
    &&& fresh.no_duplicates()
    &&& forall|v: T| #[trigger]
        rem.contains_key(v) <==> m.contains_key(v) && !skip.contains(v) && !fresh.contains(v)
    &&& forall|v: T| #[trigger]
        rem.contains_key(v) ==> rem[v] > 0 && rem[v] == pending(p, v, gone).len()
    &&& forall|v: T| #[trigger]
        fresh.contains(v) ==> m.contains_key(v) && !skip.contains(v) && pending(p, v, gone)
            == Set::<T>::empty()
}

/// The tally while the edges out of `u` are struck off, those to the nodes
/// of `seen` being done.
pub open spec fn counted_mid<T>(
    m: Map<T, Set<T>>,
    p: Map<T, Set<T>>,
    gone: Set<T>,
    u: T,
    seen: Set<T>,
    skip: Set<T>,
    rem: Map<T, usize>,
    fresh: Seq<T>,
) -> bool {
    &&& fresh.no_duplicates()
    &&& forall|v: T| #[trigger]
        rem.contains_key(v) <==> m.contains_key(v) && !skip.contains(v) && !fresh.contains(v)
    &&& forall|v: T| #[trigger]
        rem.contains_key(v) ==> rem[v] > 0 && rem[v] == pending(
            p,
            v,
            gone_for(gone, u, seen, v),
        ).len()
    &&& forall|v: T| #[trigger]
        fresh.contains(v) ==> m.contains_key(v) && !skip.contains(v) && pending(
            p,
            v,
            gone_for(gone, u, seen, v),
        ) == Set::<T>::empty()
}

/// The nodes of `skip` have no edge into them but from `placed`.
pub open spec fn behind<T>(p: Map<T, Set<T>>, skip: Set<T>, placed: Set<T>) -> bool {
    forall|v: T, x: T| skip.contains(v) && #[trigger] has_edge(p, v, x) ==> placed.contains(x)
}

/// The tally with which the sort starts: every node with its in-degree,
/// but those of in-degree 0, which are ready.
pub proof fn lemma_counted_start<T>(
    m: Map<T, Set<T>>,
    p: Map<T, Set<T>>,
    rem: Map<T, usize>,
    fresh: Seq<T>,
)
    requires
        finite_graph(m),
        mirrors(m, p),
        fresh.no_duplicates(),
        forall|v: T| #[trigger] fresh.contains(v) <==> m.contains_key(v) && in_degree_of(p, v) == 0,
        forall|v: T| #[trigger]
            rem.contains_key(v) <==> m.contains_key(v) && in_degree_of(p, v) != 0,
        forall|v: T| #[trigger] rem.contains_key(v) ==> rem[v] == in_degree_of(p, v),
    ensures
        counted(m, p, Set::<T>::empty(), Set::<T>::empty(), rem, fresh),
{
    let none = Set::<T>::empty();
    assert forall|v: T| m.contains_key(v) implies #[trigger] pending(p, v, none) == successors(p, v)
        && successors(p, v).finite() by {
        lemma_predecessors_finite(m, p, v);
    }
    assert forall|v: T| #[trigger] fresh.contains(v) implies m.contains_key(v) && !none.contains(v)
        && pending(p, v, none) == Set::<T>::empty() by {}
}

/// Where nothing is being struck off, the ready nodes are those of `fresh`.
pub proof fn lemma_counted_ready<T>(
    m: Map<T, Set<T>>,
    p: Map<T, Set<T>>,
    placed: Set<T>,
    rem: Map<T, usize>,
    fresh: Seq<T>,
)
    requires
        finite_graph(m),
        mirrors(m, p),
        counted(m, p, placed, placed, rem, fresh),
    ensures
        forall|v: T| #[trigger] fresh.contains(v) <==> ready(m, placed, v),
{
    assert forall|v: T| #[trigger] fresh.contains(v) <==> ready(m, placed, v) by {
        if fresh.contains(v) {
            assert forall|u: T| #[trigger] has_edge(m, u, v) implies placed.contains(u) by {
                if !placed.contains(u) {
                    assert(pending(p, v, placed).contains(u));
                }
            }
        }
        if ready(m, placed, v) {
            if rem.contains_key(v) {
                let left = pending(p, v, placed);
                let u = left.choose();
                assert(left.contains(u));
                assert(has_edge(p, v, u));
            }
        }
    }
}

/// The ready nodes become a generation: they are out of the tally.
pub proof fn lemma_counted_take<T>(
    m: Map<T, Set<T>>,
    p: Map<T, Set<T>>,
    placed: Set<T>,
    rem: Map<T, usize>,
    batch: Seq<T>,
)
    requires
        counted(m, p, placed, placed, rem, batch),
    ensures
        counted(m, p, placed, placed.union(batch.to_set()), rem, Seq::<T>::empty()),
{
}

/// The edges out of `u` begin to be struck off.
pub proof fn lemma_counted_open<T>(
    m: Map<T, Set<T>>,
    p: Map<T, Set<T>>,
    gone: Set<T>,
    u: T,
    skip: Set<T>,
    rem: Map<T, usize>,
    fresh: Seq<T>,
)
    requires
        counted(m, p, gone, skip, rem, fresh),
    ensures
        counted_mid(m, p, gone, u, Set::<T>::empty(), skip, rem, fresh),
{
}

/// The edge from `u` to `c` is struck off: `c` has one edge less to wait
/// for, and is ready where that was the last.
pub proof fn lemma_counted_strike<T>(
    m: Map<T, Set<T>>,
    p: Map<T, Set<T>>,
    gone: Set<T>,
    u: T,
    seen: Set<T>,
    skip: Set<T>,
    rem: Map<T, usize>,
    fresh: Seq<T>,
    c: T,
)
    requires
        finite_graph(m),
        mirrors(m, p),
        counted_mid(m, p, gone, u, seen, skip, rem, fresh),
        has_edge(m, u, c),
        m.contains_key(c),
        !seen.contains(c),
        !gone.contains(u),
        !skip.contains(c),
    ensures
        rem.contains_key(c),
        rem[c] >= 1,
        rem[c] == 1 ==> counted_mid(
            m,
            p,
            gone,
            u,
            seen.insert(c),
            skip,
            rem.remove(c),
            fresh.push(c),
        ),
        rem[c] > 1 ==> counted_mid(
            m,
            p,
            gone,
            u,
            seen.insert(c),
            skip,
            rem.insert(c, (rem[c] - 1) as usize),
            fresh,
        ),
{
    let before = pending(p, c, gone);
    let after = pending(p, c, gone.insert(u));
    assert(before.contains(u));
    assert(rem.contains_key(c));
    lemma_predecessors_finite(m, p, c);
    assert(after =~= before.remove(u));
    if rem[c] == 1 {
        let fresh2 = fresh.push(c);
        assert(after =~= Set::<T>::empty());
        assert forall|v: T| fresh2.contains(v) <==> fresh.contains(v) || v == c by {
            if fresh.contains(v) {
                let i = choose|i: int| 0 <= i < fresh.len() && fresh[i] == v;
                assert(fresh2[i] == v);
            }
            if v == c {
                assert(fresh2[fresh.len() as int] == c);
            }
        }
    }
}

/// All the edges out of `u` are struck off.
pub proof fn lemma_counted_close<T>(
    m: Map<T, Set<T>>,
    p: Map<T, Set<T>>,
    gone: Set<T>,
    u: T,
    seen: Set<T>,
    skip: Set<T>,
    rem: Map<T, usize>,
    fresh: Seq<T>,
)
    requires
        mirrors(m, p),
        counted_mid(m, p, gone, u, seen, skip, rem, fresh),
        forall|c: T| seen.contains(c) <==> has_edge(m, u, c),
    ensures
        counted(m, p, gone.insert(u), skip, rem, fresh),
{
    assert forall|v: T| pending(p, v, gone_for(gone, u, seen, v)) == #[trigger] pending(
        p,
        v,
        gone.insert(u),
    ) by {}
}

/// The nodes left in the tally when no node is ready lie on or behind a
/// cycle: each has an edge into it from another of them.
pub proof fn lemma_counted_stuck<T>(
    m: Map<T, Set<T>>,
    p: Map<T, Set<T>>,
    placed: Set<T>,
    rem: Map<T, usize>,
)
    requires
        finite_graph(m),
        mirrors(m, p),
        counted(m, p, placed, placed, rem, Seq::<T>::empty()),
    ensures
        rem.dom().finite(),
        forall|v: T| #[trigger]
            rem.dom().contains(v) ==> exists|u: T| rem.dom().contains(u) && has_edge(m, u, v),
{
    assert(rem.dom().subset_of(m.dom()));
    assert forall|v: T| #[trigger] rem.dom().contains(v) implies exists|u: T|
        rem.dom().contains(u) && has_edge(m, u, v) by {
        let left = pending(p, v, placed);
        let u = left.choose();
        assert(left.contains(u));
        assert(has_edge(p, v, u));
    }
}

/// With a new layer after them, the layers before are what they were.
pub proof fn lemma_layers_push<T>(m: Map<T, Set<T>>, layers: Seq<Seq<T>>, batch: Seq<T>)
    requires
        forall|i: int| 0 <= i < layers.len() ==> is_layer(m, layers, i),
        batch.len() > 0,
        batch.no_duplicates(),
        forall|v: T| #[trigger]
            batch.contains(v) <==> ready(m, placed_before(layers, layers.len() as int), v),
    ensures
        forall|i: int| 0 <= i < layers.len() + 1 ==> is_layer(m, layers.push(batch), i),
        placed_before(layers.push(batch), layers.len() as int + 1) == placed_before(
            layers,
            layers.len() as int,
        ).union(batch.to_set()),
{
    let more = layers.push(batch);
    assert forall|i: int| 0 <= i <= layers.len() implies placed_before(more, i) == placed_before(
        layers,
        i,
    ) by {
        assert forall|v: T| placed_before(more, i).contains(v) <==> placed_before(
            layers,
            i,
        ).contains(v) by {
            if placed_before(layers, i).contains(v) {
                let j = choose|j: int|
                    0 <= j < i && j < layers.len() && (#[trigger] layers[j]).contains(v);
                assert(more[j] == layers[j]);
            }
        }
    }
    assert forall|i: int| 0 <= i < layers.len() + 1 implies is_layer(m, more, i) by {
        if i < layers.len() {
            assert(is_layer(m, layers, i));
        }
    }
    let n = layers.len() as int;
    assert forall|v: T| placed_before(more, n + 1).contains(v) <==> placed_before(layers, n).union(
        batch.to_set(),
    ).contains(v) by {
        if batch.to_set().contains(v) {
            assert(more[n] == batch);
        }
    }
}

/// The nodes of the layers and of the generation at hand have no edge into
/// them but from the layers.
pub proof fn lemma_layers_behind<T>(
    m: Map<T, Set<T>>,
    p: Map<T, Set<T>>,
    layers: Seq<Seq<T>>,
    batch: Seq<T>,
)
    requires
        mirrors(m, p),
        forall|i: int| 0 <= i < layers.len() ==> is_layer(m, layers, i),
        forall|v: T| #[trigger]
            batch.contains(v) <==> ready(m, placed_before(layers, layers.len() as int), v),
    ensures
        behind(
            p,
            placed_before(layers, layers.len() as int).union(batch.to_set()),
            placed_before(layers, layers.len() as int),
        ),
        forall|v: T| #[trigger]
            placed_before(layers, layers.len() as int).contains(v) ==> m.contains_key(v),
        forall|v: T| #[trigger] batch.contains(v) ==> m.contains_key(v) && !placed_before(
            layers,
            layers.len() as int,
        ).contains(v),
{
    let n = layers.len() as int;
    let placed = placed_before(layers, n);
    let skip = placed.union(batch.to_set());
    assert forall|v: T, x: T|
        skip.contains(v) && #[trigger] has_edge(p, v, x) implies placed.contains(x) by {
        if placed.contains(v) {
            let j = choose|j: int|
                0 <= j < n && j < layers.len() && (#[trigger] layers[j]).contains(v);
            assert(is_layer(m, layers, j));
        }
    }
    assert forall|v: T| #[trigger] placed.contains(v) implies m.contains_key(v) by {
        let j = choose|j: int| 0 <= j < n && j < layers.len() && (#[trigger] layers[j]).contains(v);
        assert(is_layer(m, layers, j));
    }
}

} // verus!
