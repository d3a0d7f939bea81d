use nxgraph::{DiGraph, Directed, Graph, Undirected};
use std::collections::{HashMap, HashSet};

#[test]
fn empty_graph() {
    let g: Graph<i8> = Graph::new();
    let nodes: HashSet<i8> = g.nodes().into_iter().collect();
    assert_eq!(nodes, HashSet::new());
}

#[test]
fn add_nodes() {
    let mut g: Graph<i8> = Graph::new();
    g.add_node(1);
    g.add_node(2);
    g.add_node(3);
    let nodes: HashSet<i8> = g.nodes().into_iter().collect();
    assert_eq!(nodes, HashSet::from([1, 2, 3]));
}

#[test]
fn add_edges() {
    let mut g: Graph<i8> = Graph::new();
    g.add_edge(1, 2);
    let nodes: HashSet<i8> = g.nodes().into_iter().collect();
    assert_eq!(nodes, HashSet::from([1, 2]));
    assert_eq!(*g.adj(&1).unwrap(), HashSet::from([2]));
    assert_eq!(*g.adj(&2).unwrap(), HashSet::from([1]));
}

#[test]
fn no_adj() {
    let g: Graph<i8> = Graph::new();
    assert!(g.adj(&2).is_none());
}

#[test]
fn default_graph_is_empty() {
    let g: Graph<u32> = Graph::default();
    assert!(g.nodes().is_empty());
    assert!(g.edges().is_empty());
}

#[test]
fn add_node_twice_changes_nothing() {
    let mut g: Graph<i8> = Graph::new();
    g.add_edge(1, 2);
    g.add_node(1);
    let nodes: HashSet<i8> = g.nodes().into_iter().collect();
    assert_eq!(nodes, HashSet::from([1, 2]));
    assert_eq!(*g.adj(&1).unwrap(), HashSet::from([2]));
    g.add_node(1);
    let again: HashSet<i8> = g.nodes().into_iter().collect();
    assert_eq!(again, nodes);
    assert_eq!(*g.adj(&1).unwrap(), HashSet::from([2]));
    assert_eq!(g.nodes().len(), 2);
}

#[test]
fn new_node_has_no_neighbours() {
    let mut g: Graph<i8> = Graph::new();
    g.add_node(9);
    assert_eq!(*g.adj(&9).unwrap(), HashSet::new());
}

#[test]
fn undirected_edge_goes_both_ways() {
    let mut g: Graph<u8> = Graph::new();
    g.add_edge(3, 8);
    assert!(g.adj(&3).unwrap().contains(&8));
    assert!(g.adj(&8).unwrap().contains(&3));
}

#[test]
fn undirected_self_edge_makes_a_node_its_own_neighbour() {
    let mut g: Graph<u8> = Graph::new();
    g.add_edge(4, 4);
    assert_eq!(g.nodes(), vec![4]);
    assert_eq!(*g.adj(&4).unwrap(), HashSet::from([4]));
}

#[test]
fn undirected_edges_are_listed_in_both_directions() {
    let mut g: Graph<u8> = Graph::new();
    g.add_edges_from(vec![(1, 2), (2, 3)]);
    let edges: HashSet<(u8, u8)> = g.edges().into_iter().collect();
    assert_eq!(edges, HashSet::from([(1, 2), (2, 1), (2, 3), (3, 2)]));
    assert_eq!(g.edges().len(), 4);
}

#[test]
fn repeated_edges_are_kept_once() {
    let mut g: Graph<u8> = Graph::new();
    g.add_edges_from(vec![(1, 2), (1, 2), (2, 1)]);
    assert_eq!(g.edges().len(), 2);
    assert_eq!(g.nodes().len(), 2);
}

#[test]
fn iter_hands_out_every_node_once() {
    let mut g: Graph<u8> = Graph::new();
    g.add_edges_from(vec![(1, 2), (2, 3)]);
    g.add_node(7);
    let mut seen: Vec<u8> = g.iter().copied().collect();
    seen.sort();
    assert_eq!(seen, vec![1, 2, 3, 7]);
}

#[test]
fn graphs_know_their_kind() {
    assert!(!Graph::<u8, Undirected>::is_directed());
    assert!(Graph::<u8, Directed>::is_directed());
}

#[test]
fn directed_edge_goes_one_way() {
    let mut g: DiGraph<u8> = DiGraph::new();
    g.add_edge(1, 2);
    assert_eq!(*g.adj(&1).unwrap(), HashSet::from([2]));
    assert_eq!(*g.adj(&2).unwrap(), HashSet::new());
    let edges: HashSet<(u8, u8)> = g.edges().into_iter().collect();
    assert_eq!(edges, HashSet::from([(1, 2)]));
}

#[test]
fn directed_edge_raises_the_in_degree_of_its_target_by_one() {
    let mut g: DiGraph<u8> = DiGraph::new();
    g.add_edge(1, 3);
    assert_eq!(g.in_degree(&3), 1);
    assert_eq!(g.in_degree(&1), 0);
    g.add_edge(2, 3);
    assert_eq!(g.in_degree(&3), 2);
    assert_eq!(g.in_degree(&2), 0);
    assert_eq!(g.in_degree(&1), 0);
}

#[test]
fn directed_edge_added_again_keeps_the_in_degree() {
    let mut g: DiGraph<u8> = DiGraph::new();
    g.add_edge(1, 3);
    g.add_edge(1, 3);
    assert_eq!(g.in_degree(&3), 1);
}

#[test]
fn directed_self_edge_counts_into_its_own_node() {
    let mut g: DiGraph<u8> = DiGraph::new();
    g.add_edge(5, 5);
    assert_eq!(g.in_degree(&5), 1);
    assert_eq!(*g.adj(&5).unwrap(), HashSet::from([5]));
}

#[test]
fn in_degree_of_a_missing_node_is_zero() {
    let g: DiGraph<u8> = DiGraph::new();
    assert_eq!(g.in_degree(&1), 0);
}

#[test]
fn in_degree_map_holds_every_node() {
    let mut g: DiGraph<u8> = DiGraph::new();
    g.add_edges_from(vec![(1, 2), (2, 3), (3, 5), (1, 4), (4, 5)]);
    g.add_node(6);
    let degrees = g.in_degree_map();
    let expected: HashMap<u8, usize> =
        HashMap::from([(1, 0), (2, 1), (3, 1), (4, 1), (5, 2), (6, 0)]);
    assert_eq!(degrees, expected);
}

#[test]
fn directed_add_node_twice_changes_nothing() {
    let mut g: DiGraph<u8> = DiGraph::new();
    g.add_edge(1, 2);
    g.add_node(2);
    g.add_node(2);
    assert_eq!(g.nodes().len(), 2);
    assert_eq!(g.in_degree(&2), 1);
    assert_eq!(*g.adj(&2).unwrap(), HashSet::new());
}
