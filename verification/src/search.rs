//! Path searching in a graph.
use crate::frontier::{
    explored, lemma_explored_advance, lemma_explored_discover, lemma_explored_distance,
    lemma_explored_finish, lemma_explored_start, lemma_explored_unreachable, lemma_waiting_finish,
    lemma_waiting_front, lemma_waiting_least, lemma_waiting_push, waiting_ok,
};
use crate::graph::{duplicate, lemma_push_to_set, same_node, valid_node, Graph, GraphType};
use crate::model::has_edge;
use crate::paths::{
    back_path, is_distance, is_shortest_length, is_shortest_path, lemma_back_path,
    lemma_links_back_unique, links_back, links_from, reachable, traces_back,
};
use crate::queue::{MinQueue, State};
use std::collections::{HashMap, HashSet, VecDeque};
use std::fmt::Debug;
use std::hash::Hash;
use vstd::prelude::*;
use vstd::seq_lib::{to_multiset_build, to_multiset_contains, to_multiset_len, to_multiset_remove};
use vstd::std_specs::hash::*;
use vstd::std_specs::iter::IteratorSpec;

verus! {

/// Breadth-first search (BFS) algorithm.
#[derive(Debug)]
pub struct BFS {}

pub trait SearchAlgorithm<T, G> where T: Clone + Hash + Eq + Debug, G: GraphType {
    /// A utility function for finding a shortest path in a graph: the
    /// number of hops to `target`, and the links that lead from it back to
    /// `source`.
    fn shortest_path_util(g: &Graph<T, G>, source: T, target: T) -> (found: Option<
        (usize, HashMap<T, T>),
    >)
        requires
            valid_node::<T>(),
            g.wf(),
            g@.contains_key(source),
        ensures
            found is Some <==> reachable(g@, source, target),
            found matches Some((hops, previous)) ==> {
                &&& is_distance(g@, source, target, hops as nat)
                &&& traces_back(g@, previous@, source, target, hops as nat)
                &&& links_from(g@, previous@, source)
            },
    ;

    /// A shortest path between a `source` and a `target` nodes in a graph `g`.
    fn shortest_path(g: &Graph<T, G>, source: T, target: T) -> (path: Option<Vec<T>>)
        requires
            valid_node::<T>(),
            g.wf(),
            g@.contains_key(source),
        ensures
            path is Some <==> reachable(g@, source, target),
            path matches Some(p) ==> is_shortest_path(g@, p@, source, target),
    {
        match Self::shortest_path_util(g, duplicate(&source), duplicate(&target)) {
            Some((hops, mut previous)) => {
                proof {
                    lemma_back_path(previous@, source, target, hops as nat);
                }
                Some(build_path(&mut previous, source, target))
            },
            None => None,
        }
    }

    /// A shortest path's length.
    fn shortest_path_length(g: &Graph<T, G>, source: T, target: T) -> (len: Option<usize>)
        requires
            valid_node::<T>(),
            g.wf(),
            g@.contains_key(source),
        ensures
            is_shortest_length(g@, source, target, len),
    {
        match Self::shortest_path_util(g, source, target) {
            Some((hops, _)) => Some(hops),
            None => None,
        }
    }

    /// Returns `True` if `g` has a path from `source` to `target`
    fn has_path(g: &Graph<T, G>, source: T, target: T) -> (found: bool)
        requires
            valid_node::<T>(),
            g.wf(),
            g@.contains_key(source),
        ensures
            found == reachable(g@, source, target),
    {
        Self::shortest_path_util(g, source, target).is_some()
    }
}

/// The last `k` nodes of `p`.
spec fn left_behind<T>(p: Seq<T>, k: int) -> Set<T> {
    Set::new(|x: T| exists|i: int| p.len() - k <= i < p.len() && p[i] == x)
}

/// Every node on the way back from `t` links back to `s` in as many steps as
/// its place says, so no node is met twice.
proof fn lemma_back_path_distinct<T>(prev: Map<T, T>, s: T, t: T, n: nat)
    requires
        links_back(prev, s, t, n),
    ensures
        forall|i: int|
            0 <= i <= n ==> links_back(prev, s, #[trigger] back_path(prev, t, n)[i], i as nat),
        back_path(prev, t, n).no_duplicates(),
    decreases n,
{
    let p = back_path(prev, t, n);
    lemma_back_path(prev, s, t, n);
    if n > 0 {
        lemma_back_path_distinct(prev, s, prev[t], (n - 1) as nat);
        lemma_back_path(prev, s, prev[t], (n - 1) as nat);
    }
    assert forall|i: int, j: int| 0 <= i < p.len() && 0 <= j < p.len() && i != j implies p[i]
        != p[j] by {
        if p[i] == p[j] {
            lemma_links_back_unique(prev, s, p[i], i as nat, j as nat);
        }
    }
}

/// Walks the links of `previous` from `target` back to `source`, taking
/// each link out of `previous`, and returns the nodes met, `source` first.
pub fn build_path<T>(previous: &mut HashMap<T, T>, source: T, target: T) -> (path: Vec<T>) where
    T: Clone + Hash + Eq + Debug,

    requires
        valid_node::<T>(),
        exists|n: nat| links_back(old(previous)@, source, target, n),
    ensures
        forall|n: nat|
            links_back(old(previous)@, source, target, n) ==> path@ == back_path(
                old(previous)@,
                target,
                n,
            ) && final(previous)@ == old(previous)@.remove_keys(path@.drop_first().to_set()),
{
    broadcast use group_hash_axioms;

    let ghost n = choose|n: nat| links_back(old(previous)@, source, target, n);
    let ghost links = old(previous)@;
    let ghost whole = back_path(links, target, n);
    proof {
        lemma_back_path(links, source, target, n);
        lemma_back_path_distinct(links, source, target, n);
    }
    let mut path: Vec<T> = Vec::new();
    path.push(duplicate(&target));
    let mut current: T = target;
    let ghost mut k: int = 0;

    while !same_node(&current, &source)
        invariant
            valid_node::<T>(),
            whole == back_path(links, target, n),
            whole.len() == n + 1,
            whole.no_duplicates(),
            whole[0] == source,
            forall|i: int|
                0 <= i < n ==> links.contains_key(#[trigger] whole[i + 1]) && links[whole[i + 1]]
                    == whole[i],
            0 <= k <= n,
            current == whole[n - k],
            path@.len() == k + 1,
            forall|j: int| 0 <= j <= k ==> path@[j] == whole[n - j],
            previous@ == links.remove_keys(left_behind(whole, k)),
        decreases n - k,
    {
        proof {
            assert(links.contains_key(whole[(n - k - 1) + 1]));
        }
        current = previous.remove(&current).expect("No entry");
        path.push(duplicate(&current));
        proof {
            k = k + 1;
        }
    }
    assert(k == n);
    let mut forward: Vec<T> = Vec::new();
    let mut i: usize = path.len();
    while i > 0
        invariant
            valid_node::<T>(),
            0 <= i <= path@.len(),
            path@.len() == n + 1,
            whole.len() == n + 1,
            forall|j: int| 0 <= j <= n ==> path@[j] == whole[n - j],
            forward@.len() == path@.len() - i,
            forall|j: int| 0 <= j < forward@.len() ==> forward@[j] == whole[j],
        decreases i,
    {
        i -= 1;
        forward.push(duplicate(&path[i]));
    }
    proof {
        let rest = whole.drop_first();
        assert(left_behind(whole, n as int) =~= rest.to_set()) by {
            assert forall|x: T|
                left_behind(whole, n as int).contains(x) <==> rest.to_set().contains(x) by {
                if left_behind(whole, n as int).contains(x) {
                    let i = choose|i: int| whole.len() - n <= i < whole.len() && whole[i] == x;
                    assert(rest[i - 1] == x);
                }
            }
        }
        assert forall|m: nat| links_back(links, source, target, m) implies m == n by {
            lemma_links_back_unique(links, source, target, m, n);
        }
    }
    forward
}

/// The items of `q` come by rising cost.
spec fn rising<T>(q: Seq<(T, usize)>) -> bool {
    forall|i: int, j: int| 0 <= i < j < q.len() ==> (#[trigger] q[i]).1 <= (#[trigger] q[j]).1
}

impl<T, G> SearchAlgorithm<T, G> for BFS where T: Clone + Hash + Eq + Debug, G: GraphType {
    fn shortest_path_util(g: &Graph<T, G>, source: T, target: T) -> (found: Option<
        (usize, HashMap<T, T>),
    >) {
        broadcast use group_hash_axioms;

        let mut previous: HashMap<T, T> = HashMap::new();
        let mut visited: HashSet<T> = HashSet::new();
        visited.insert(duplicate(&source));
        let mut queue: VecDeque<(T, usize)> = VecDeque::new();
        queue.push_back((duplicate(&source), 0));

        let ghost mut dist = Map::<T, nat>::empty().insert(source, 0);
        let ghost mut done = Set::<T>::empty();
        let ghost mut level = 0nat;
        proof {
            lemma_explored_start(g@, source);
            assert(queue@[0] == (source, 0usize));
        }

        while queue.len() > 0
            invariant
                valid_node::<T>(),
                g.wf(),
                explored(g@, source, dist, previous@, done, level),
                waiting_ok(queue@, dist, done),
                rising(queue@),
                visited@ == dist.dom(),
                !done.contains(target),
            decreases g@.dom().len() - done.len(),
        {
            let ghost waiting = queue@;
            let (node, dist_here) = queue.pop_front().expect("Empty queue");
            proof {
                lemma_waiting_least(waiting, dist, done, dist_here);
                lemma_explored_advance(g@, source, dist, previous@, done, level, dist_here as nat);
                level = dist_here as nat;
            }

            if same_node(&node, &target) {
                proof {
                    lemma_explored_distance(g@, source, dist, previous@, done, level, node);
                }
                return Some((dist_here, previous));
            }
            let neighbors = g.adj(&node).expect("Node does not exist");
            let ghost around = spec_hash_keys_iter(neighbors).remaining();
            proof {
                assert(seq![waiting[0]] + queue@ =~= waiting);
            }

            for neighbor in it: neighbors.iter()
                invariant
                    valid_node::<T>(),
                    g.wf(),
                    it.seq() == around,
                    around.unref().to_set() == g@[node],
                    g@.contains_key(node),
                    explored(g@, source, dist, previous@, done, level),
                    level == dist_here,
                    dist.contains_key(node),
                    dist[node] == level,
                    !done.contains(node),
                    waiting.len() > 0,
                    waiting[0] == (node, dist_here),
                    waiting_ok(seq![waiting[0]] + queue@, dist, done),
                    rising(seq![waiting[0]] + queue@),
                    visited@ == dist.dom(),
                    forall|j: int|
                        0 <= j < it.index() ==> dist.contains_key(*#[trigger] around[j])
                            && dist[*around[j]] <= level + 1,
            {
                if !visited.contains(neighbor) {
                    let ghost held = seq![waiting[0]] + queue@;
                    proof {
                        assert(visited.len() == visited@.len());
                        lemma_explored_discover(
                            g@,
                            source,
                            dist,
                            previous@,
                            done,
                            level,
                            node,
                            *neighbor,
                        );
                        lemma_waiting_push(held, dist, done, *neighbor, (dist_here + 1) as usize);
                    }
                    previous.insert(duplicate(neighbor), duplicate(&node));
                    queue.push_back((duplicate(neighbor), dist_here + 1));
                    visited.insert(duplicate(neighbor));
                    proof {
                        dist = dist.insert(*neighbor, level + 1);
                    }
                }
            }
            proof {
                let held = seq![waiting[0]] + queue@;
                lemma_all_around(g@, node, around, dist, level);
                lemma_explored_finish(g@, source, dist, previous@, done, level, node);
                lemma_waiting_finish(held, dist, done);
                assert(held.subrange(1, held.len() as int) =~= queue@);
                lemma_one_more_done(g@, source, dist, previous@, done, level, node);
                done = done.insert(node);
            }
        }
        proof {
            lemma_explored_unreachable(g@, source, dist, previous@, done, level, target);
        }
        None
    }
}

/// Dijkstra's algorithm for a weighted graph.
#[derive(Debug)]
pub struct Dijkstra {}

/// `best` records the hops of the nodes discovered, and the greatest
/// number there is for the others.
spec fn recorded<T>(best: Map<T, usize>, dist: Map<T, nat>, nodes: Set<T>) -> bool {
    &&& best.dom() == nodes
    &&& nodes.len() <= usize::MAX
    &&& forall|v: T|
        nodes.contains(v) ==> #[trigger] best[v] == (if dist.contains_key(v) {
            dist[v]
        } else {
            usize::MAX as nat
        })
}

impl<T, G> SearchAlgorithm<T, G> for Dijkstra where
    T: Clone + Hash + Eq + Debug + Ord,
    G: GraphType,
 {
    fn shortest_path_util(g: &Graph<T, G>, source: T, target: T) -> (found: Option<
        (usize, HashMap<T, T>),
    >) {
        broadcast use group_hash_axioms;

        let nodes = g.nodes();
        let mut dist: HashMap<T, usize> = HashMap::new();
        for i in 0..nodes.len()
            invariant
                valid_node::<T>(),
                dist@.dom() == nodes@.take(i as int).to_set(),
                forall|v: T| dist@.contains_key(v) ==> #[trigger] dist@[v] == usize::MAX,
        {
            proof {
                assert(nodes@.take(i + 1) == nodes@.take(i as int).push(nodes@[i as int]));
                lemma_push_to_set(nodes@.take(i as int), nodes@[i as int]);
            }
            dist.insert(duplicate(&nodes[i]), usize::MAX);
        }
        let mut previous: HashMap<T, T> = HashMap::new();
        let mut heap: MinQueue<T> = MinQueue::new();
        heap.push(State { cost: 0, node: duplicate(&source) });
        dist.insert(duplicate(&source), 0);

        let ghost mut known = Map::<T, nat>::empty().insert(source, 0);
        let ghost mut done = Set::<T>::empty();
        let ghost mut level = 0nat;
        let ghost mut held = seq![(source, 0usize)];
        proof {
            assert(nodes@.take(nodes@.len() as int) == nodes@);
            assert(dist@.dom() =~= g@.dom());
            assert(dist.len() == dist@.dom().len());
            lemma_explored_start(g@, source);
            assert(held[0] == (source, 0usize));
            to_multiset_build(Seq::<(T, usize)>::empty(), (source, 0usize));
            Seq::<(T, usize)>::empty().to_multiset_ensures();
        }

        while heap.len() > 0
            invariant
                valid_node::<T>(),
                g.wf(),
                heap.wf(),
                held.to_multiset() == heap@,
                explored(g@, source, known, previous@, done, level),
                waiting_ok(held, known, done),
                recorded(dist@, known, g@.dom()),
                !done.contains(target),
            decreases g@.dom().len() - done.len(),
        {
            let ghost waiting = held;
            let State { cost, node } = heap.pop().expect("Empty queue");
            proof {
                to_multiset_contains(waiting, (node, cost));
                let at = choose|i: int| 0 <= i < waiting.len() && waiting[i] == (node, cost);
                to_multiset_remove(waiting, at);
                held = waiting.remove(at);
                assert forall|j: int| 0 <= j < waiting.len() implies cost <= (
                #[trigger] waiting[j]).1 by {
                    to_multiset_contains(waiting, waiting[j]);
                }
                lemma_waiting_least(waiting, known, done, cost);
                lemma_explored_advance(g@, source, known, previous@, done, level, cost as nat);
                level = cost as nat;
                lemma_waiting_front(waiting, known, done, at);
            }
            if same_node(&node, &target) {
                proof {
                    lemma_explored_distance(g@, source, known, previous@, done, level, node);
                }
                return Some((cost, previous));
            }
            if cost > *dist.get(&node).expect("No such node in a graph") {
                continue;
            }
            let neighbors = g.adj(&node).expect("No such node in a graph");
            let ghost around = spec_hash_keys_iter(neighbors).remaining();

            for neighbor in it: neighbors.iter()
                invariant
                    valid_node::<T>(),
                    g.wf(),
                    heap.wf(),
                    held.to_multiset() == heap@,
                    it.seq() == around,
                    around.unref().to_set() == g@[node],
                    g@.contains_key(node),
                    explored(g@, source, known, previous@, done, level),
                    level == cost,
                    known.contains_key(node),
                    known[node] == level,
                    !done.contains(node),
                    waiting_ok(seq![(node, cost)] + held, known, done),
                    recorded(dist@, known, g@.dom()),
                    forall|j: int|
                        0 <= j < it.index() ==> known.contains_key(*#[trigger] around[j])
                            && known[*around[j]] <= level + 1,
            {
                proof {
                    assert(has_edge(g@, node, *neighbor));
                    lemma_room_for_more(g@, source, known, previous@, done, level, *neighbor);
                }
                let next = State { cost: cost + 1, node: duplicate(neighbor) };
                if next.cost < *dist.get(neighbor).expect("No such node in a graph") {
                    let ghost in_hand = seq![(node, cost)] + held;
                    proof {
                        lemma_explored_discover(
                            g@,
                            source,
                            known,
                            previous@,
                            done,
                            level,
                            node,
                            *neighbor,
                        );
                        lemma_waiting_push(in_hand, known, done, *neighbor, next.cost);
                        to_multiset_build(held, (*neighbor, next.cost));
                    }
                    dist.insert(duplicate(neighbor), next.cost);
                    heap.push(next);
                    previous.insert(duplicate(neighbor), duplicate(&node));
                    proof {
                        known = known.insert(*neighbor, level + 1);
                        held = held.push((*neighbor, next.cost));
                        assert(dist@.dom() =~= g@.dom());
                    }
                }
            }
            proof {
                let in_hand = seq![(node, cost)] + held;
                lemma_all_around(g@, node, around, known, level);
                lemma_explored_finish(g@, source, known, previous@, done, level, node);
                lemma_waiting_finish(in_hand, known, done);
                assert(in_hand.subrange(1, in_hand.len() as int) =~= held);
                lemma_one_more_done(g@, source, known, previous@, done, level, node);
                done = done.insert(node);
            }
        }
        proof {
            to_multiset_len(held);
            lemma_explored_unreachable(g@, source, known, previous@, done, level, target);
        }
        None
    }
}

/// Where every successor handed out was discovered within one more hop,
/// every successor of the node was.
proof fn lemma_all_around<T>(
    m: Map<T, Set<T>>,
    u: T,
    around: Seq<&T>,
    dist: Map<T, nat>,
    level: nat,
)
    requires
        m.contains_key(u),
        around.unref().to_set() == m[u],
        forall|j: int|
            0 <= j < around.len() ==> dist.contains_key(*#[trigger] around[j]) && dist[*around[j]]
                <= level + 1,
    ensures
        forall|w: T| #[trigger] has_edge(m, u, w) ==> dist.contains_key(w) && dist[w] <= level + 1,
{
}

/// With one more node done, fewer nodes are left to do.
proof fn lemma_one_more_done<T>(
    m: Map<T, Set<T>>,
    s: T,
    dist: Map<T, nat>,
    prev: Map<T, T>,
    done: Set<T>,
    level: nat,
    u: T,
)
    requires
        m.dom().finite(),
        explored(m, s, dist, prev, done, level),
        dist.contains_key(u),
        !done.contains(u),
    ensures
        done.insert(u).len() == done.len() + 1,
        done.insert(u).len() <= m.dom().len(),
{
    vstd::set_lib::lemma_len_subset(done, m.dom());
    vstd::set_lib::lemma_len_subset(done.insert(u), m.dom());
}

/// While a node of the graph is not discovered, fewer nodes are discovered
/// than the graph has.
proof fn lemma_room_for_more<T>(
    m: Map<T, Set<T>>,
    s: T,
    dist: Map<T, nat>,
    prev: Map<T, T>,
    done: Set<T>,
    level: nat,
    w: T,
)
    requires
        m.dom().finite(),
        explored(m, s, dist, prev, done, level),
        m.contains_key(w),
    ensures
        dist.dom().len() <= m.dom().len(),
        !dist.contains_key(w) ==> dist.dom().len() < m.dom().len(),
{
    vstd::set_lib::lemma_len_subset(dist.dom(), m.dom());
    if !dist.contains_key(w) {
        vstd::set_lib::lemma_len_subset(dist.dom().insert(w), m.dom());
    }
}

} // verus!
