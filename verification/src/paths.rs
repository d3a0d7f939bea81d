//! Paths, reachability and distance in the model of a graph, and the
//! predecessor links from which a path is read back.
use crate::model::has_edge;
use vstd::prelude::*;

verus! {

/// The step from item `i` of `p` to the next one is an edge of the graph.
pub open spec fn hop<T>(m: Map<T, Set<T>>, p: Seq<T>, i: int) -> bool {
    has_edge(m, p[i], p[i + 1])
}

/// `p` is a path from `s` to `t`: it starts with `s`, ends with `t`, and
/// every consecutive pair in it is an edge.
pub open spec fn is_path<T>(m: Map<T, Set<T>>, p: Seq<T>, s: T, t: T) -> bool {
    &&& p.len() > 0
    &&& p[0] == s
    &&& p[p.len() - 1] == t
    &&& forall|i: int| 0 <= i < p.len() - 1 ==> #[trigger] hop(m, p, i)
}

/// There is a path from `s` to `t`.
pub open spec fn reachable<T>(m: Map<T, Set<T>>, s: T, t: T) -> bool {
    exists|p: Seq<T>| is_path(m, p, s, t)
}

/// `n` is the least number of edges on a path from `s` to `t`.
pub open spec fn is_distance<T>(m: Map<T, Set<T>>, s: T, t: T, n: nat) -> bool {
    &&& exists|p: Seq<T>| is_path(m, p, s, t) && p.len() == n + 1
    &&& forall|p: Seq<T>| is_path(m, p, s, t) ==> p.len() >= n + 1
}

/// `p` is a path from `s` to `t` with as few edges as any.
pub open spec fn is_shortest_path<T>(m: Map<T, Set<T>>, p: Seq<T>, s: T, t: T) -> bool {
    &&& is_path(m, p, s, t)
    &&& is_distance(m, s, t, (p.len() - 1) as nat)
}

/// `len` is what a shortest-path query answers: the distance from `s` to
/// `t`, or nothing where `t` is out of reach.
pub open spec fn is_shortest_length<T>(m: Map<T, Set<T>>, s: T, t: T, len: Option<usize>) -> bool {
    match len {
        Some(n) => is_distance(m, s, t, n as nat),
        None => !reachable(m, s, t),
    }
}

/// Following `prev` from `t` arrives at `s` after exactly `n` steps, and not
/// before.
pub open spec fn links_back<T>(prev: Map<T, T>, s: T, t: T, n: nat) -> bool
    decreases n,
{
    if n == 0 {
        t == s
    } else {
        t != s && prev.contains_key(t) && links_back(prev, s, prev[t], (n - 1) as nat)
    }
}

/// The nodes met when `prev` is followed from `t` for `n` steps, last first.
pub open spec fn back_path<T>(prev: Map<T, T>, t: T, n: nat) -> Seq<T>
    decreases n,
{
    if n == 0 {
        seq![t]
    } else {
        back_path(prev, prev[t], (n - 1) as nat).push(t)
    }
}

/// Every link of `prev` goes against an edge of the graph, and `s` has none.
pub open spec fn links_from<T>(m: Map<T, Set<T>>, prev: Map<T, T>, s: T) -> bool {
    &&& !prev.contains_key(s)
    &&& forall|v: T| #[trigger] prev.contains_key(v) ==> has_edge(m, prev[v], v)
}

/// `prev` leads from `t` back to `s` in `n` steps along edges of the graph.
pub open spec fn traces_back<T>(m: Map<T, Set<T>>, prev: Map<T, T>, s: T, t: T, n: nat) -> bool {
    &&& links_back(prev, s, t, n)
    &&& is_path(m, back_path(prev, t, n), s, t)
}

/// The distance between two nodes is unique.
pub proof fn lemma_distance_unique<T>(m: Map<T, Set<T>>, s: T, t: T, a: nat, b: nat)
    requires
        is_distance(m, s, t, a),
        is_distance(m, s, t, b),
    ensures
        a == b,
{
}

/// Two answers to the same shortest-path query are equal, whichever
/// algorithm gave them.
pub proof fn lemma_shortest_length_unique<T>(
    m: Map<T, Set<T>>,
    s: T,
    t: T,
    a: Option<usize>,
    b: Option<usize>,
)
    requires
        is_shortest_length(m, s, t, a),
        is_shortest_length(m, s, t, b),
    ensures
        a == b,
{
}

/// The number of steps that `prev` takes from `t` back to `s` is unique.
pub proof fn lemma_links_back_unique<T>(prev: Map<T, T>, s: T, t: T, a: nat, b: nat)
    requires
        links_back(prev, s, t, a),
        links_back(prev, s, t, b),
    ensures
        a == b,
    decreases a,
{
    if a != 0 && b != 0 {
        lemma_links_back_unique(prev, s, prev[t], (a - 1) as nat, (b - 1) as nat);
    }
}

/// What `back_path` holds: `n + 1` nodes, `t` last, and where `prev` links
/// back to `s`, `s` first and every node the `prev` of the next.
pub proof fn lemma_back_path<T>(prev: Map<T, T>, s: T, t: T, n: nat)
    requires
        links_back(prev, s, t, n),
    ensures
        back_path(prev, t, n).len() == n + 1,
        back_path(prev, t, n)[0] == s,
        back_path(prev, t, n)[n as int] == t,
        forall|i: int|
            #![trigger back_path(prev, t, n)[i + 1]]
            0 <= i < n ==> {
                let p = back_path(prev, t, n);
                prev.contains_key(p[i + 1]) && prev[p[i + 1]] == p[i]
            },
    decreases n,
{
    if n > 0 {
        lemma_back_path(prev, s, prev[t], (n - 1) as nat);
    }
}

} // verus!
