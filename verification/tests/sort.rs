use nxgraph::{topological_generations, topological_sort, CycleError, Directed, Graph};

fn simple_graph() -> Graph<i8, Directed> {
    let mut g: Graph<i8, Directed> = Graph::new();
    g.add_edges_from(vec![(1, 2), (2, 3), (3, 4), (1, 5), (5, 4), (4, 6)]);
    g.add_node(7);
    g
}

#[test]
fn test_topological_generations() {
    let g = simple_graph();
    let actual = topological_generations(&g)
        .ok()
        .unwrap()
        .into_iter()
        .map(|mut generation| {
            generation.sort();
            generation
        })
        .collect::<Vec<Vec<i8>>>();
    let expected = vec![vec![1, 7], vec![2, 5], vec![3], vec![4], vec![6]];
    assert_eq!(actual, expected);
}

#[test]
fn test_topological_sort() {
    let g = simple_graph();
    let actual = topological_sort(&g).ok().unwrap();
    let expected = vec![
        vec![1, 7, 2, 5, 3, 4, 6],
        vec![7, 1, 2, 5, 3, 4, 6],
        vec![1, 7, 5, 2, 3, 4, 6],
        vec![7, 1, 5, 2, 3, 4, 6],
    ];
    assert!(expected.contains(&actual));
}

#[test]
fn cycle_error() {
    let mut g: Graph<i8, Directed> = Graph::new();
    g.add_edges_from(vec![(1, 2), (2, 3), (3, 1)]);
    assert!(topological_sort(&g).is_err());
}

fn sorted_generations(g: &Graph<i8, Directed>) -> Vec<Vec<i8>> {
    let mut generations = topological_generations(g).ok().unwrap();
    for generation in generations.iter_mut() {
        generation.sort();
    }
    generations
}

#[test]
fn generations_come_layer_by_layer() {
    let g = simple_graph();
    assert_eq!(
        sorted_generations(&g),
        vec![vec![1, 7], vec![2, 5], vec![3], vec![4], vec![6]]
    );
}

#[test]
fn an_edge_back_makes_the_sort_fail() {
    let mut g = simple_graph();
    g.add_edge(3, 1);
    assert!(topological_generations(&g).is_err());
    assert!(topological_sort(&g).is_err());
}

#[test]
fn sorted_nodes_are_all_the_nodes_with_every_edge_forward() {
    let g = simple_graph();
    let order = topological_sort(&g).ok().unwrap();
    let mut nodes = order.clone();
    nodes.sort();
    assert_eq!(nodes, vec![1, 2, 3, 4, 5, 6, 7]);
    let place = |x: i8| order.iter().position(|y| *y == x).unwrap();
    for (u, v) in g.edges() {
        assert!(place(u) < place(v));
    }
}

#[test]
fn sort_is_the_generations_one_after_the_other() {
    let g = simple_graph();
    let order = topological_sort(&g).ok().unwrap();
    let mut at = 0;
    for generation in sorted_generations(&g) {
        let mut part: Vec<i8> = order[at..at + generation.len()].to_vec();
        part.sort();
        assert_eq!(part, generation);
        at += generation.len();
    }
    assert_eq!(at, order.len());
}

#[test]
fn a_self_edge_is_a_cycle() {
    let mut g: Graph<i8, Directed> = Graph::new();
    g.add_edge(1, 2);
    g.add_edge(2, 2);
    assert!(topological_sort(&g).is_err());
    assert!(topological_generations(&g).is_err());
}

#[test]
fn a_cycle_behind_sorted_nodes_still_fails() {
    let mut g: Graph<i8, Directed> = Graph::new();
    g.add_edges_from(vec![(1, 2), (2, 3), (3, 4), (4, 2)]);
    assert!(topological_sort(&g).is_err());
}

#[test]
fn an_empty_graph_sorts_to_nothing() {
    let g: Graph<i8, Directed> = Graph::new();
    assert_eq!(topological_generations(&g).ok().unwrap(), Vec::<Vec<i8>>::new());
    assert_eq!(topological_sort(&g).ok().unwrap(), Vec::<i8>::new());
}

#[test]
fn nodes_without_edges_are_one_generation() {
    let mut g: Graph<i8, Directed> = Graph::new();
    g.add_node(3);
    g.add_node(1);
    g.add_node(2);
    assert_eq!(sorted_generations(&g), vec![vec![1, 2, 3]]);
}

#[test]
fn a_node_waits_for_its_last_predecessor() {
    let mut g: Graph<i8, Directed> = Graph::new();
    g.add_edges_from(vec![(1, 4), (1, 2), (2, 3), (3, 4)]);
    assert_eq!(
        sorted_generations(&g),
        vec![vec![1], vec![2], vec![3], vec![4]]
    );
    assert_eq!(topological_sort(&g).ok().unwrap(), vec![1, 2, 3, 4]);
}

#[test]
fn cycle_error_says_what_happened() {
    let mut g: Graph<i8, Directed> = Graph::new();
    g.add_edges_from(vec![(1, 2), (2, 1)]);
    let error: CycleError = topological_sort(&g).err().unwrap();
    assert_eq!(error.message(), "A cycle has been detected in a graph");
    assert_eq!(error.clone().message(), error.message());
}
