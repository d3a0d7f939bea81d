//! The state of a search that grows outward from a source, level by level,
//! and what follows from its invariant.
use crate::model::{closed_graph, has_edge};
use crate::paths::{back_path, hop, is_distance, is_path, reachable, traces_back};
use vstd::prelude::*;

verus! {

/// The invariant of a search from `s`. `dist` holds the nodes discovered so
/// far with their number of hops, `prev` the node from which each was
/// discovered, and `done` the nodes whose successors have all been looked
/// at. `level` is the number of hops of the node looked at last.
pub open spec fn explored<T>(
    m: Map<T, Set<T>>,
    s: T,
    dist: Map<T, nat>,
    prev: Map<T, T>,
    done: Set<T>,
    level: nat,
) -> bool {
    &&& dist.dom().finite()
    &&& dist.contains_key(s)
    &&& dist[s] == 0
    &&& !prev.contains_key(s)
    &&& forall|v: T| #[trigger]
        dist.contains_key(v) ==> m.contains_key(v) && dist[v] < dist.dom().len()
    &&& forall|v: T| #[trigger] prev.contains_key(v) ==> dist.contains_key(v)
    &&& forall|v: T| #[trigger]
        dist.contains_key(v) && v != s ==> prev.contains_key(v) && dist.contains_key(prev[v])
            && dist[prev[v]] + 1 == dist[v] && has_edge(m, prev[v], v)
    &&& forall|v: T| #[trigger] done.contains(v) ==> dist.contains_key(v) && dist[v] <= level
    &&& forall|v: T, w: T|
        done.contains(v) && #[trigger] has_edge(m, v, w) ==> dist.contains_key(w) && dist[w]
            <= dist[v] + 1
    &&& forall|v: T| #[trigger]
        dist.contains_key(v) && !done.contains(v) ==> level <= dist[v] <= level + 1
}

/// The state in which a search starts.
pub proof fn lemma_explored_start<T>(m: Map<T, Set<T>>, s: T)
    requires
        m.contains_key(s),
    ensures
        explored(
            m,
            s,
            Map::<T, nat>::empty().insert(s, 0),
            Map::<T, T>::empty(),
            Set::<T>::empty(),
            0,
        ),
{
}

/// A node is discovered from the node in hand.
pub proof fn lemma_explored_discover<T>(
    m: Map<T, Set<T>>,
    s: T,
    dist: Map<T, nat>,
    prev: Map<T, T>,
    done: Set<T>,
    level: nat,
    u: T,
    w: T,
)
    requires
        closed_graph(m),
        explored(m, s, dist, prev, done, level),
        dist.contains_key(u),
        !done.contains(u),
        dist[u] == level,
        has_edge(m, u, w),
        !dist.contains_key(w),
    ensures
        explored(m, s, dist.insert(w, level + 1), prev.insert(w, u), done, level),
        dist.insert(w, level + 1).dom().len() == dist.dom().len() + 1,
{
}

/// The node in hand has had all its successors looked at.
pub proof fn lemma_explored_finish<T>(
    m: Map<T, Set<T>>,
    s: T,
    dist: Map<T, nat>,
    prev: Map<T, T>,
    done: Set<T>,
    level: nat,
    u: T,
)
    requires
        explored(m, s, dist, prev, done, level),
        dist.contains_key(u),
        dist[u] == level,
        forall|w: T| #[trigger] has_edge(m, u, w) ==> dist.contains_key(w) && dist[w] <= level + 1,
    ensures
        explored(m, s, dist, prev, done.insert(u), level),
{
}

/// The search moves on to a node of the next level.
pub proof fn lemma_explored_advance<T>(
    m: Map<T, Set<T>>,
    s: T,
    dist: Map<T, nat>,
    prev: Map<T, T>,
    done: Set<T>,
    level: nat,
    next: nat,
)
    requires
        explored(m, s, dist, prev, done, level),
        level <= next,
        forall|v: T| #[trigger] dist.contains_key(v) && !done.contains(v) ==> next <= dist[v],
    ensures
        explored(m, s, dist, prev, done, next),
{
}

/// The links of `prev` lead from every discovered node back to the source,
/// along edges, in as many steps as `dist` says.
pub proof fn lemma_explored_traces_back<T>(
    m: Map<T, Set<T>>,
    s: T,
    dist: Map<T, nat>,
    prev: Map<T, T>,
    done: Set<T>,
    level: nat,
    v: T,
)
    requires
        explored(m, s, dist, prev, done, level),
        dist.contains_key(v),
    ensures
        traces_back(m, prev, s, v, dist[v]),
        back_path(prev, v, dist[v]).len() == dist[v] + 1,
    decreases dist[v],
{
    if v != s {
        let u = prev[v];
        lemma_explored_traces_back(m, s, dist, prev, done, level, u);
        let rest = back_path(prev, u, dist[u]);
        let p = back_path(prev, v, dist[v]);
        assert forall|i: int| 0 <= i < p.len() - 1 implies #[trigger] hop(m, p, i) by {
            if i < rest.len() - 1 {
                assert(hop(m, rest, i));
            }
        }
    }
}

/// Every node within `level` hops of the source has been discovered, with
/// no more hops than any path to it.
pub proof fn lemma_explored_near<T>(
    m: Map<T, Set<T>>,
    s: T,
    dist: Map<T, nat>,
    prev: Map<T, T>,
    done: Set<T>,
    level: nat,
    p: Seq<T>,
    x: T,
)
    requires
        explored(m, s, dist, prev, done, level),
        is_path(m, p, s, x),
        p.len() - 1 <= level,
    ensures
        dist.contains_key(x),
        dist[x] <= p.len() - 1,
    decreases p.len(),
{
    if p.len() > 1 {
        let q = p.drop_last();
        let y = q[q.len() - 1];
        assert forall|i: int| 0 <= i < q.len() - 1 implies #[trigger] hop(m, q, i) by {
            assert(hop(m, p, i));
        }
        lemma_explored_near(m, s, dist, prev, done, level, q, y);
        assert(hop(m, p, p.len() - 2));
    }
}

/// Once every discovered node is done, every node in reach of the source
/// has been discovered.
pub proof fn lemma_explored_all<T>(
    m: Map<T, Set<T>>,
    s: T,
    dist: Map<T, nat>,
    prev: Map<T, T>,
    done: Set<T>,
    level: nat,
    p: Seq<T>,
    x: T,
)
    requires
        explored(m, s, dist, prev, done, level),
        forall|v: T| #[trigger] dist.contains_key(v) ==> done.contains(v),
        is_path(m, p, s, x),
    ensures
        dist.contains_key(x),
    decreases p.len(),
{
    if p.len() > 1 {
        let q = p.drop_last();
        let y = q[q.len() - 1];
        assert forall|i: int| 0 <= i < q.len() - 1 implies #[trigger] hop(m, q, i) by {
            assert(hop(m, p, i));
        }
        lemma_explored_all(m, s, dist, prev, done, level, q, y);
        assert(hop(m, p, p.len() - 2));
    }
}

/// The node in hand is at its distance from the source.
pub proof fn lemma_explored_distance<T>(
    m: Map<T, Set<T>>,
    s: T,
    dist: Map<T, nat>,
    prev: Map<T, T>,
    done: Set<T>,
    level: nat,
    u: T,
)
    requires
        explored(m, s, dist, prev, done, level),
        dist.contains_key(u),
        dist[u] == level,
    ensures
        reachable(m, s, u),
        is_distance(m, s, u, level),
        traces_back(m, prev, s, u, level),
{
    lemma_explored_traces_back(m, s, dist, prev, done, level, u);
    assert forall|p: Seq<T>| is_path(m, p, s, u) implies p.len() >= level + 1 by {
        if p.len() < level + 1 {
            lemma_explored_near(m, s, dist, prev, done, level, p, u);
        }
    }
}

/// Once every discovered node is done, a node that was not discovered is
/// out of reach.
pub proof fn lemma_explored_unreachable<T>(
    m: Map<T, Set<T>>,
    s: T,
    dist: Map<T, nat>,
    prev: Map<T, T>,
    done: Set<T>,
    level: nat,
    t: T,
)
    requires
        explored(m, s, dist, prev, done, level),
        forall|v: T| #[trigger] dist.contains_key(v) ==> done.contains(v),
        !dist.contains_key(t),
    ensures
        !reachable(m, s, t),
{
    if reachable(m, s, t) {
        let p = choose|p: Seq<T>| is_path(m, p, s, t);
        lemma_explored_all(m, s, dist, prev, done, level, p, t);
    }
}

/// The nodes that are discovered and not done wait in `q`, once each, with
/// their number of hops.
pub open spec fn waiting_ok<T>(q: Seq<(T, usize)>, dist: Map<T, nat>, done: Set<T>) -> bool {
    &&& forall|i: int|
        0 <= i < q.len() ==> dist.contains_key((#[trigger] q[i]).0) && !done.contains(q[i].0)
            && q[i].1 == dist[q[i].0]
    &&& forall|v: T| #[trigger] dist.contains_key(v) && !done.contains(v) ==> waits(q, v)
    &&& forall|i: int, j: int| 0 <= i < j < q.len() ==> (#[trigger] q[i]).0 != (#[trigger] q[j]).0
}

/// `v` waits in `q`.
pub open spec fn waits<T>(q: Seq<(T, usize)>, v: T) -> bool {
    exists|i: int| 0 <= i < q.len() && (#[trigger] q[i]).0 == v
}

/// A newly discovered node joins those that wait.
pub proof fn lemma_waiting_push<T>(
    q: Seq<(T, usize)>,
    dist: Map<T, nat>,
    done: Set<T>,
    w: T,
    hops: usize,
)
    requires
        waiting_ok(q, dist, done),
        !dist.contains_key(w),
        forall|v: T| #[trigger] done.contains(v) ==> dist.contains_key(v),
    ensures
        waiting_ok(q.push((w, hops)), dist.insert(w, hops as nat), done),
{
    let q2 = q.push((w, hops));
    let dist2 = dist.insert(w, hops as nat);
    assert forall|v: T| #[trigger] dist2.contains_key(v) && !done.contains(v) implies waits(
        q2,
        v,
    ) by {
        if v == w {
            assert(q2[q.len() as int].0 == w);
        } else {
            let i = choose|i: int| 0 <= i < q.len() && (#[trigger] q[i]).0 == v;
            assert(q2[i].0 == v);
        }
    }
}

/// The node in hand, first of those that wait, is done.
pub proof fn lemma_waiting_finish<T>(q: Seq<(T, usize)>, dist: Map<T, nat>, done: Set<T>)
    requires
        waiting_ok(q, dist, done),
        q.len() > 0,
    ensures
        waiting_ok(q.subrange(1, q.len() as int), dist, done.insert(q[0].0)),
{
    let rest = q.subrange(1, q.len() as int);
    let done2 = done.insert(q[0].0);
    assert forall|v: T| #[trigger] dist.contains_key(v) && !done2.contains(v) implies waits(
        rest,
        v,
    ) by {
        let i = choose|i: int| 0 <= i < q.len() && (#[trigger] q[i]).0 == v;
        assert(rest[i - 1] == q[i]);
    }
}

/// The node taken in hand may be any of those that wait.
pub proof fn lemma_waiting_front<T>(q: Seq<(T, usize)>, dist: Map<T, nat>, done: Set<T>, at: int)
    requires
        waiting_ok(q, dist, done),
        0 <= at < q.len(),
    ensures
        waiting_ok(seq![q[at]] + q.remove(at), dist, done),
{
    let r = seq![q[at]] + q.remove(at);
    assert forall|v: T| #[trigger] dist.contains_key(v) && !done.contains(v) implies waits(
        r,
        v,
    ) by {
        let i = choose|i: int| 0 <= i < q.len() && (#[trigger] q[i]).0 == v;
        let to = if i == at { 0 } else if i < at { i + 1 } else { i };
        assert(r[to] == q[i]);
    }
}

/// Where no item that waits costs less than `hops`, no node that waits has
/// fewer hops.
pub proof fn lemma_waiting_least<T>(
    q: Seq<(T, usize)>,
    dist: Map<T, nat>,
    done: Set<T>,
    hops: usize,
)
    requires
        waiting_ok(q, dist, done),
        forall|j: int| 0 <= j < q.len() ==> hops <= (#[trigger] q[j]).1,
    ensures
        forall|v: T| #[trigger] dist.contains_key(v) && !done.contains(v) ==> hops <= dist[v],
{
}

} // verus!
