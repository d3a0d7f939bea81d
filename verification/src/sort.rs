//! Graph sorting utilities.
use crate::graph::{duplicate, lemma_push_to_set, valid_node, Directed, Graph};
use crate::model::has_edge;
use crate::order::{
    has_cycle, is_layer, is_layering, is_topological_order, lemma_layering_gives_order,
    lemma_stuck_has_cycle, placed_before,
};
use crate::tally::{
    behind, counted, counted_mid, lemma_counted_close, lemma_counted_open, lemma_counted_ready,
    lemma_counted_start, lemma_counted_strike, lemma_counted_stuck, lemma_counted_take,
    lemma_layers_behind, lemma_layers_push,
};
use std::collections::HashMap;
use std::fmt::Debug;
use std::hash::Hash;
use vstd::prelude::*;
use vstd::std_specs::hash::*;
use vstd::std_specs::iter::IteratorSpec;

verus! {

/// The graph holds a cycle, so its nodes cannot be sorted.
#[derive(Debug)]
pub struct CycleError;

impl Clone for CycleError {
    fn clone(&self) -> (copy: Self)
        ensures
            copy == *self,
    {
        CycleError
    }
}

impl CycleError {
    /// What the error says.
    pub fn message(&self) -> (text: String)
        ensures
            text@ == "A cycle has been detected in a graph"@,
    {
        "A cycle has been detected in a graph".to_owned()
    }
}

/// The generations as sequences of nodes.
pub open spec fn layers_of<T>(generations: Seq<Vec<T>>) -> Seq<Seq<T>> {
    generations.map_values(|generation: Vec<T>| generation@)
}

/// One of the first `n` entries is that of `v`.
spec fn listed<T>(entries: Seq<(&T, &usize)>, n: int, v: T) -> bool {
    exists|i: int| 0 <= i < n && *(#[trigger] entries[i]).0 == v
}

/// The nodes in generations: the nodes without an edge into them first,
/// then, generation by generation, the nodes that have edges into them from
/// the generations before alone. Fails where the graph holds a cycle.
pub fn topological_generations<T>(g: &Graph<T, Directed>) -> (sorted: Result<
    Vec<Vec<T>>,
    CycleError,
>) where T: Clone + Hash + Eq + Debug
    requires
        valid_node::<T>(),
        g.wf(),
    ensures
        sorted is Err <==> has_cycle(g@),
        sorted matches Ok(generations) ==> is_layering(g@, layers_of(generations@)),
{
    broadcast use group_hash_axioms;

    let mut generations: Vec<Vec<T>> = Vec::new();
    let mut indegree_map: HashMap<T, usize> = HashMap::new();
    let mut zero_indegree: Vec<T> = Vec::new();

    let degrees = g.in_degree_map();
    let ghost entries = spec_hash_map_iter(&degrees).remaining();
    for entry in it: degrees.iter()
        invariant
            valid_node::<T>(),
            it.seq() == entries,
            forall|i: int|
                0 <= i < entries.len() ==> degrees@.contains_key(*(#[trigger] entries[i]).0)
                    && degrees@[*entries[i].0] == *entries[i].1,
            entries.no_duplicates(),
            zero_indegree@.no_duplicates(),
            forall|v: T| #[trigger]
                zero_indegree@.contains(v) <==> listed(entries, it.index() as int, v)
                    && degrees@[v] == 0,
            forall|v: T| #[trigger]
                indegree_map@.contains_key(v) <==> listed(entries, it.index() as int, v)
                    && degrees@[v] != 0,
            forall|v: T| #[trigger]
                indegree_map@.contains_key(v) ==> indegree_map@[v] == degrees@[v],
    {
        let (k, v) = entry;
        let ghost ready_before = zero_indegree@;
        match *v {
            0 => {
                zero_indegree.push(duplicate(k));
                proof {
                    assert forall|x: T| #[trigger]
                        zero_indegree@.contains(x) <==> ready_before.contains(x) || x == *k by {
                        if ready_before.contains(x) {
                            let i = choose|i: int|
                                0 <= i < ready_before.len() && ready_before[i] == x;
                            assert(zero_indegree@[i] == x);
                        }
                        if x == *k {
                            assert(zero_indegree@[ready_before.len() as int] == x);
                        }
                    }
                    assert forall|i: int, j: int|
                        0 <= i < zero_indegree@.len() && 0 <= j < zero_indegree@.len() && i
                            != j implies zero_indegree@[i] != zero_indegree@[j] by {
                        if i < ready_before.len() && j >= ready_before.len() {
                            assert(ready_before.contains(ready_before[i]));
                        } else if j < ready_before.len() && i >= ready_before.len() {
                            assert(ready_before.contains(ready_before[j]));
                        }
                    }
                }
            },
            _ => {
                indegree_map.insert(duplicate(k), *v);
            },
        };
    }
    let ghost mut placed = Set::<T>::empty();
    proof {
        lemma_counted_start(g@, g.preds(), indegree_map@, zero_indegree@);
    }

    while !zero_indegree.is_empty()
        invariant
            valid_node::<T>(),
            g.wf(),
            forall|i: int|
                0 <= i < generations@.len() ==> is_layer(g@, layers_of(generations@), i),
            placed == placed_before(layers_of(generations@), generations@.len() as int),
            counted(g@, g.preds(), placed, placed, indegree_map@, zero_indegree@),
        decreases g@.dom().len() - placed.len(),
    {
        let this_generation = zero_indegree;
        zero_indegree = Vec::new();
        let ghost layers = layers_of(generations@);
        let ghost skip = placed.union(this_generation@.to_set());
        proof {
            lemma_counted_ready(g@, g.preds(), placed, indegree_map@, this_generation@);
            lemma_counted_take(g@, g.preds(), placed, indegree_map@, this_generation@);
            lemma_layers_behind(g@, g.preds(), layers, this_generation@);
            assert(placed.union(this_generation@.take(0).to_set()) =~= placed);
        }

        for a in 0..this_generation.len()
            invariant
                valid_node::<T>(),
                g.wf(),
                skip == placed.union(this_generation@.to_set()),
                this_generation@.no_duplicates(),
                behind(g.preds(), skip, placed),
                forall|v: T| #[trigger]
                    this_generation@.contains(v) ==> g@.contains_key(v) && !placed.contains(v),
                counted(
                    g@,
                    g.preds(),
                    placed.union(this_generation@.take(a as int).to_set()),
                    skip,
                    indegree_map@,
                    zero_indegree@,
                ),
        {
            let node = &this_generation[a];
            let ghost gone = placed.union(this_generation@.take(a as int).to_set());
            proof {
                assert(this_generation@.contains(*node));
                lemma_counted_open(
                    g@,
                    g.preds(),
                    gone,
                    *node,
                    skip,
                    indegree_map@,
                    zero_indegree@,
                );
            }
            let children = g.adj(node).expect("No such node in a graph");
            let ghost around = spec_hash_keys_iter(children).remaining();
            for child in it: children.iter()
                invariant
                    valid_node::<T>(),
                    g.wf(),
                    it.seq() == around,
                    around.no_duplicates(),
                    around.unref().to_set() == g@[*node],
                    g@.contains_key(*node),
                    !gone.contains(*node),
                    !placed.contains(*node),
                    behind(g.preds(), skip, placed),
                    counted_mid(
                        g@,
                        g.preds(),
                        gone,
                        *node,
                        around.unref().take(it.index() as int).to_set(),
                        skip,
                        indegree_map@,
                        zero_indegree@,
                    ),
            {
                let ghost at = it.index() as int;
                let ghost seen = around.unref().take(at).to_set();
                proof {
                    assert(has_edge(g@, *node, *child));
                    lemma_counted_strike(
                        g@,
                        g.preds(),
                        gone,
                        *node,
                        seen,
                        skip,
                        indegree_map@,
                        zero_indegree@,
                        *child,
                    );
                    assert(around.unref().take(at + 1) =~= around.unref().take(at).push(*child));
                    lemma_push_to_set(around.unref().take(at), *child);
                }
                let left = *indegree_map.get(child).expect("No such node in a graph") - 1;
                if left == 0 {
                    zero_indegree.push(duplicate(child));
                    indegree_map.remove(child);
                } else {
                    indegree_map.insert(duplicate(child), left);
                }
            }
            proof {
                assert(around.unref().take(around.len() as int) =~= around.unref());
                lemma_counted_close(
                    g@,
                    g.preds(),
                    gone,
                    *node,
                    around.unref().to_set(),
                    skip,
                    indegree_map@,
                    zero_indegree@,
                );
                assert(this_generation@.take(a + 1) =~= this_generation@.take(a as int).push(
                    *node,
                ));
                lemma_push_to_set(this_generation@.take(a as int), *node);
                assert(gone.insert(*node) =~= placed.union(
                    this_generation@.take(a + 1).to_set(),
                ));
            }
        }
        proof {
            assert(this_generation@.take(this_generation@.len() as int) =~= this_generation@);
            lemma_layers_push(g@, layers, this_generation@);
            assert(layers_of(generations@.push(this_generation)) =~= layers.push(
                this_generation@,
            ));
            let first = this_generation@[0];
            assert(this_generation@.contains(first));
            vstd::set_lib::lemma_len_subset(skip, g@.dom());
            vstd::set_lib::lemma_len_subset(placed, skip.remove(first));
            placed = skip;
        }
        generations.push(this_generation);
    }

    if !indegree_map.is_empty() {
        proof {
            lemma_counted_stuck(g@, g.preds(), placed, indegree_map@);
            lemma_stuck_has_cycle(g@, indegree_map@.dom());
        }
        return Err(CycleError);
    }
    proof {
        let layers = layers_of(generations@);
        lemma_counted_ready(g@, g.preds(), placed, indegree_map@, zero_indegree@);
        lemma_layers_behind(g@, g.preds(), layers, zero_indegree@);
        assert forall|v: T| g@.dom().contains(v) implies placed.contains(v) by {
            if !placed.contains(v) {
                assert(indegree_map@.contains_key(v));
            }
        }
        assert(placed =~= g@.dom());
        lemma_layering_gives_order(g@, layers);
    }
    Ok(generations)
}

/// The nodes in a topological order: the generations one after the other.
/// Fails where the graph holds a cycle.
pub fn topological_sort<T>(g: &Graph<T, Directed>) -> (sorted: Result<Vec<T>, CycleError>) where
    T: Clone + Hash + Eq + Debug,

    requires
        valid_node::<T>(),
        g.wf(),
    ensures
        sorted is Err <==> has_cycle(g@),
        sorted matches Ok(order) ==> is_topological_order(g@, order@) && exists|layers: Seq<Seq<T>>|
            is_layering(g@, layers) && order@ == layers.flatten(),
{
    match topological_generations(g) {
        Ok(gens) => {
            let ghost layers = layers_of(gens@);
            let mut sorted: Vec<T> = Vec::new();
            for i in 0..gens.len()
                invariant
                    valid_node::<T>(),
                    layers == layers_of(gens@),
                    sorted@ == layers.take(i as int).flatten(),
            {
                let generation = &gens[i];
                for j in 0..generation.len()
                    invariant
                        valid_node::<T>(),
                        sorted@ == layers.take(i as int).flatten() + generation@.take(j as int),
                {
                    sorted.push(duplicate(&generation[j]));
                }
                proof {
                    assert(layers.take(i + 1) =~= layers.take(i as int).push(generation@));
                    layers.take(i as int).lemma_flatten_push(generation@);
                }
            }
            proof {
                assert(layers.take(layers.len() as int) =~= layers);
                lemma_layering_gives_order(g@, layers);
            }
            Ok(sorted)
        },
        Err(e) => Err(e),
    }
}

} // verus!
