//! Cycles, layers and topological orders in the model of a directed graph.
use crate::model::has_edge;
use crate::paths::{hop, is_path};
use vstd::prelude::*;

verus! {

/// `p` is a cycle: a path of at least one edge that ends where it starts.
pub open spec fn is_cycle<T>(m: Map<T, Set<T>>, p: Seq<T>) -> bool {
    p.len() > 1 && is_path(m, p, p[0], p[0])
}

/// The graph holds a cycle.
pub open spec fn has_cycle<T>(m: Map<T, Set<T>>) -> bool {
    exists|p: Seq<T>| is_cycle(m, p)
}

/// The nodes of the first `n` layers.
pub open spec fn placed_before<T>(layers: Seq<Seq<T>>, n: int) -> Set<T> {
    Set::new(
        |v: T| exists|j: int| 0 <= j < n && j < layers.len() && (#[trigger] layers[j]).contains(v),
    )
}

/// `v` is a node that is not placed, while every node with an edge into it
/// is.
pub open spec fn ready<T>(m: Map<T, Set<T>>, placed: Set<T>, v: T) -> bool {
    &&& m.contains_key(v)
    &&& !placed.contains(v)
    &&& forall|u: T| #[trigger] has_edge(m, u, v) ==> placed.contains(u)
}

/// Layer `i` holds, once each, the nodes that are ready when the layers
/// before it are placed, and there is such a node.
pub open spec fn is_layer<T>(m: Map<T, Set<T>>, layers: Seq<Seq<T>>, i: int) -> bool {
    &&& layers[i].len() > 0
    &&& layers[i].no_duplicates()
    &&& forall|v: T|
        #![trigger layers[i].contains(v)]
        #![trigger ready(m, placed_before(layers, i), v)]
        layers[i].contains(v) <==> ready(m, placed_before(layers, i), v)
}

/// `layers` are the generations of the graph: each a layer, and together
/// all the nodes.
pub open spec fn is_layering<T>(m: Map<T, Set<T>>, layers: Seq<Seq<T>>) -> bool {
    &&& forall|i: int| 0 <= i < layers.len() ==> is_layer(m, layers, i)
    &&& placed_before(layers, layers.len() as int) == m.dom()
}

/// `order` holds every node once, and every edge leads forward in it.
pub open spec fn is_topological_order<T>(m: Map<T, Set<T>>, order: Seq<T>) -> bool {
    &&& order.no_duplicates()
    &&& order.to_set() == m.dom()
    &&& forall|a: int, b: int|
        0 <= a < order.len() && 0 <= b < order.len() && has_edge(
            m,
            #[trigger] order[a],
            #[trigger] order[b],
        ) ==> a < b
}

/// The place of `x` in `order`.
spec fn place_of<T>(order: Seq<T>, x: T) -> int {
    choose|a: int| 0 <= a < order.len() && order[a] == x
}

/// Along a path of a graph with a topological order the places rise.
proof fn lemma_places_rise<T>(m: Map<T, Set<T>>, order: Seq<T>, p: Seq<T>, i: int)
    requires
        is_topological_order(m, order),
        p.len() > 1,
        forall|k: int| 0 <= k < p.len() - 1 ==> #[trigger] hop(m, p, k),
        m.contains_key(p[p.len() - 1]),
        1 <= i < p.len(),
    ensures
        place_of(order, p[0]) < place_of(order, p[i]),
    decreases i,
{
    assert forall|k: int| 0 <= k < p.len() implies order.contains(#[trigger] p[k]) by {
        if k < p.len() - 1 {
            assert(hop(m, p, k));
        }
    }
    assert(hop(m, p, i - 1));
    if i > 1 {
        lemma_places_rise(m, order, p, i - 1);
    }
}

/// A graph with a topological order holds no cycle.
pub proof fn lemma_order_acyclic<T>(m: Map<T, Set<T>>, order: Seq<T>)
    requires
        is_topological_order(m, order),
    ensures
        !has_cycle(m),
{
    if has_cycle(m) {
        let p = choose|p: Seq<T>| is_cycle(m, p);
        assert(hop(m, p, 0));
        lemma_places_rise(m, order, p, p.len() - 1);
    }
}

/// The first `k` layers, one after the other, hold their nodes once each,
/// and every edge between those nodes leads forward.
proof fn lemma_layers_in_order<T>(m: Map<T, Set<T>>, layers: Seq<Seq<T>>, k: int)
    requires
        forall|i: int| 0 <= i < layers.len() ==> is_layer(m, layers, i),
        0 <= k <= layers.len(),
    ensures
        layers.take(k).flatten().no_duplicates(),
        layers.take(k).flatten().to_set() == placed_before(layers, k),
        forall|a: int, b: int|
            0 <= a < layers.take(k).flatten().len() && 0 <= b < layers.take(k).flatten().len()
                && has_edge(
                m,
                #[trigger] layers.take(k).flatten()[a],
                #[trigger] layers.take(k).flatten()[b],
            ) ==> a < b,
    decreases k,
{
    if k > 0 {
        lemma_layers_in_order(m, layers, k - 1);
        let head = layers.take(k - 1).flatten();
        let last = layers[k - 1];
        let all = layers.take(k).flatten();
        assert(layers.take(k) =~= layers.take(k - 1).push(last));
        layers.take(k - 1).lemma_flatten_push(last);
        assert(is_layer(m, layers, k - 1));
        assert forall|a: int| 0 <= a < head.len() implies placed_before(layers, k - 1).contains(
            #[trigger] head[a],
        ) by {}
        assert forall|a: int, b: int|
            0 <= a < all.len() && 0 <= b < all.len() && a != b implies all[a] != all[b] by {
            if a >= head.len() && b < head.len() {
                assert(last.contains(last[a - head.len()]));
            } else if b >= head.len() && a < head.len() {
                assert(last.contains(last[b - head.len()]));
            }
        }
        assert forall|x: T| all.to_set().contains(x) <==> placed_before(layers, k).contains(x) by {
            if placed_before(layers, k).contains(x) {
                let j = choose|j: int|
                    0 <= j < k && j < layers.len() && (#[trigger] layers[j]).contains(x);
                if j < k - 1 {
                    assert(placed_before(layers, k - 1).contains(x));
                    let a = choose|a: int| 0 <= a < head.len() && head[a] == x;
                    assert(all[a] == x);
                } else {
                    let a = choose|a: int| 0 <= a < last.len() && last[a] == x;
                    assert(all[head.len() + a] == x);
                }
            }
        }
        assert forall|a: int, b: int|
            0 <= a < all.len() && 0 <= b < all.len() && has_edge(
                m,
                #[trigger] all[a],
                #[trigger] all[b],
            ) implies a < b by {
            if a >= head.len() {
                assert(last.contains(last[a - head.len()]));
                if b >= head.len() {
                    assert(last.contains(last[b - head.len()]));
                } else {
                    let j = choose|j: int|
                        0 <= j < k - 1 && j < layers.len() && (#[trigger] layers[j]).contains(
                            all[b],
                        );
                    assert(is_layer(m, layers, j));
                }
            }
        }
    }
}

/// The generations of a graph, one after the other, are a topological
/// order of it.
pub proof fn lemma_layering_gives_order<T>(m: Map<T, Set<T>>, layers: Seq<Seq<T>>)
    requires
        is_layering(m, layers),
    ensures
        is_topological_order(m, layers.flatten()),
        !has_cycle(m),
{
    lemma_layers_in_order(m, layers, layers.len() as int);
    assert(layers.take(layers.len() as int) =~= layers);
    lemma_order_acyclic(m, layers.flatten());
}

/// A node of `stuck` with an edge into `v`.
spec fn upstream<T>(m: Map<T, Set<T>>, stuck: Set<T>, v: T) -> T {
    choose|u: T| stuck.contains(u) && has_edge(m, u, v)
}

/// The node met after `k` steps against the edges from `start`, within
/// `stuck`.
spec fn trail<T>(m: Map<T, Set<T>>, stuck: Set<T>, start: T, k: nat) -> T
    decreases k,
{
    if k == 0 {
        start
    } else {
        upstream(m, stuck, trail(m, stuck, start, (k - 1) as nat))
    }
}

/// The trail stays within `stuck`, each step against an edge.
proof fn lemma_trail<T>(m: Map<T, Set<T>>, stuck: Set<T>, start: T, k: nat)
    requires
        stuck.contains(start),
        forall|v: T| #[trigger]
            stuck.contains(v) ==> exists|u: T| stuck.contains(u) && has_edge(m, u, v),
    ensures
        stuck.contains(trail(m, stuck, start, k)),
        k > 0 ==> has_edge(m, trail(m, stuck, start, k), trail(m, stuck, start, (k - 1) as nat)),
    decreases k,
{
    if k > 0 {
        lemma_trail(m, stuck, start, (k - 1) as nat);
    }
}

/// Where every node of a finite, non-empty set has an edge into it from a
/// node of the set, the graph holds a cycle.
pub proof fn lemma_stuck_has_cycle<T>(m: Map<T, Set<T>>, stuck: Set<T>)
    requires
        stuck.finite(),
        stuck.len() > 0,
        forall|v: T| #[trigger]
            stuck.contains(v) ==> exists|u: T| stuck.contains(u) && has_edge(m, u, v),
    ensures
        has_cycle(m),
{
    let start = stuck.choose();
    let n = stuck.len();
    let walk = Seq::new(n + 1, |k: int| trail(m, stuck, start, k as nat));
    assert forall|k: int| 0 <= k < walk.len() implies stuck.contains(#[trigger] walk[k]) by {
        lemma_trail(m, stuck, start, k as nat);
    }
    if walk.no_duplicates() {
        walk.unique_seq_to_set();
        vstd::set_lib::lemma_len_subset(walk.to_set(), stuck);
    }
    let (i, j) = choose|i: int, j: int|
        0 <= i < walk.len() && 0 <= j < walk.len() && i != j && walk[i] == walk[j];
    let (lo, hi) = if i < j {
        (i, j)
    } else {
        (j, i)
    };
    let p = Seq::new((hi - lo + 1) as nat, |t: int| trail(m, stuck, start, (hi - t) as nat));
    assert forall|t: int| 0 <= t < p.len() - 1 implies #[trigger] hop(m, p, t) by {
        lemma_trail(m, stuck, start, (hi - t) as nat);
    }
    assert(is_cycle(m, p));
}

} // verus!
