use nxgraph::queue::{MinQueue, State};
use nxgraph::search::build_path;
use nxgraph::{DiGraph, Dijkstra, Graph, SearchAlgorithm, BFS};
use std::collections::HashMap;

fn simple_graph() -> Graph<i8> {
    let mut g: Graph<i8> = Graph::new();
    g.add_edges_from(vec![(1, 2), (2, 3), (3, 4), (1, 5), (5, 4), (4, 6)]);
    g.add_node(7);
    g
}

#[test]
fn bfs_shortest_path_exists() {
    let g = simple_graph();
    let actual = BFS::shortest_path(&g, 1, 6);
    let expected = Some(vec![1, 5, 4, 6]);
    assert_eq!(actual, expected);
}

#[test]
fn bfs_shortest_path_not_exists() {
    let g = simple_graph();
    let actual = BFS::shortest_path(&g, 1, 7);
    let expected = None;
    assert_eq!(actual, expected);
}

#[test]
fn bfs_shortest_path_len_exists() {
    let g = simple_graph();
    let actual = BFS::shortest_path_length(&g, 1, 6);
    let expected = Some(3);
    assert_eq!(actual, expected);
}

#[test]
fn bfs_shortest_path_len_not_exists() {
    let g = simple_graph();
    let actual = BFS::shortest_path_length(&g, 1, 7);
    let expected = None;
    assert_eq!(actual, expected);
}

#[test]
fn bfs_has_path() {
    let g = simple_graph();
    let actual = BFS::has_path(&g, 1, 6);
    let expected = true;
    assert_eq!(actual, expected);
}

#[test]
fn bfs_has_not_path() {
    let g = simple_graph();
    let actual = BFS::has_path(&g, 1, 7);
    let expected = false;
    assert_eq!(actual, expected);
}

#[test]
fn dijkstra_shortest_path_exists() {
    let g = simple_graph();
    let actual = Dijkstra::shortest_path(&g, 1, 6);
    let expected = Some(vec![1, 5, 4, 6]);
    assert_eq!(actual, expected);
}

#[test]
fn dijkstra_shortest_path_not_exists() {
    let g = simple_graph();
    let actual = Dijkstra::shortest_path(&g, 1, 7);
    let expected = None;
    assert_eq!(actual, expected);
}

#[test]
fn dijkstra_shortest_path_len_exists() {
    let g = simple_graph();
    let actual = Dijkstra::shortest_path_length(&g, 1, 6);
    let expected = Some(3);
    assert_eq!(actual, expected);
}

#[test]
fn dijkstra_shortest_path_len_not_exists() {
    let g = simple_graph();
    let actual = Dijkstra::shortest_path_length(&g, 1, 7);
    let expected = None;
    assert_eq!(actual, expected);
}

#[test]
fn dijkstra_has_path() {
    let g = simple_graph();
    let actual = Dijkstra::has_path(&g, 1, 6);
    let expected = true;
    assert_eq!(actual, expected);
}

#[test]
fn dijkstra_has_not_path() {
    let g = simple_graph();
    let actual = Dijkstra::has_path(&g, 1, 7);
    let expected = false;
    assert_eq!(actual, expected);
}

fn ring_with_chord() -> Graph<u8> {
    let mut g: Graph<u8> = Graph::new();
    g.add_edges_from(vec![(1, 2), (2, 3), (3, 5), (1, 4), (4, 5)]);
    g.add_node(6);
    g
}

fn is_walk(g: &Graph<u8>, path: &[u8]) -> bool {
    path.windows(2).all(|pair| g.adj(&pair[0]).unwrap().contains(&pair[1]))
}

#[test]
fn bfs_finds_the_two_hop_path() {
    let g = ring_with_chord();
    let path = BFS::shortest_path(&g, 1, 5).unwrap();
    assert_eq!(path, vec![1, 4, 5]);
    assert_eq!(BFS::shortest_path_length(&g, 1, 5), Some(2));
    assert!(!BFS::has_path(&g, 1, 6));
    assert_eq!(BFS::shortest_path(&g, 1, 6), None);
}

#[test]
fn dijkstra_finds_the_two_hop_path() {
    let g = ring_with_chord();
    let path = Dijkstra::shortest_path(&g, 1, 5).unwrap();
    assert_eq!(path, vec![1, 4, 5]);
    assert_eq!(Dijkstra::shortest_path_length(&g, 1, 5), Some(2));
    assert!(!Dijkstra::has_path(&g, 1, 6));
    assert_eq!(Dijkstra::shortest_path(&g, 1, 6), None);
}

#[test]
fn both_searches_agree_on_every_pair() {
    let g = ring_with_chord();
    let expected: [[Option<usize>; 6]; 6] = [
        [Some(0), Some(1), Some(2), Some(1), Some(2), None],
        [Some(1), Some(0), Some(1), Some(2), Some(2), None],
        [Some(2), Some(1), Some(0), Some(2), Some(1), None],
        [Some(1), Some(2), Some(2), Some(0), Some(1), None],
        [Some(2), Some(2), Some(1), Some(1), Some(0), None],
        [None, None, None, None, None, Some(0)],
    ];
    for s in 1u8..=6 {
        for t in 1u8..=6 {
            let by_bfs = BFS::shortest_path_length(&g, s, t);
            let by_dijkstra = Dijkstra::shortest_path_length(&g, s, t);
            assert_eq!(by_bfs, by_dijkstra);
            assert_eq!(by_bfs, expected[(s - 1) as usize][(t - 1) as usize]);
        }
    }
}

#[test]
fn every_path_found_leads_from_source_to_target_along_edges() {
    let g = ring_with_chord();
    for s in 1u8..=6 {
        for t in 1u8..=6 {
            for path in [BFS::shortest_path(&g, s, t), Dijkstra::shortest_path(&g, s, t)] {
                if let Some(p) = path {
                    assert_eq!(p[0], s);
                    assert_eq!(p[p.len() - 1], t);
                    assert!(is_walk(&g, &p));
                    assert_eq!(Some(p.len() - 1), BFS::shortest_path_length(&g, s, t));
                }
            }
        }
    }
}

#[test]
fn path_from_a_node_to_itself_is_that_node() {
    let g = ring_with_chord();
    assert_eq!(BFS::shortest_path(&g, 6, 6), Some(vec![6]));
    assert_eq!(Dijkstra::shortest_path(&g, 6, 6), Some(vec![6]));
    assert_eq!(BFS::shortest_path_length(&g, 3, 3), Some(0));
    assert_eq!(Dijkstra::shortest_path_length(&g, 3, 3), Some(0));
    assert!(BFS::has_path(&g, 6, 6));
    assert!(Dijkstra::has_path(&g, 6, 6));
}

#[test]
fn target_outside_the_graph_is_out_of_reach() {
    let g = ring_with_chord();
    assert_eq!(BFS::shortest_path(&g, 1, 9), None);
    assert_eq!(Dijkstra::shortest_path(&g, 1, 9), None);
    assert_eq!(BFS::shortest_path_length(&g, 1, 9), None);
    assert!(!Dijkstra::has_path(&g, 1, 9));
}

#[test]
fn search_follows_the_direction_of_edges() {
    let mut g: DiGraph<u8> = DiGraph::new();
    g.add_edges_from(vec![(1, 2), (2, 3)]);
    assert_eq!(BFS::shortest_path(&g, 1, 3), Some(vec![1, 2, 3]));
    assert_eq!(Dijkstra::shortest_path(&g, 1, 3), Some(vec![1, 2, 3]));
    assert_eq!(BFS::shortest_path(&g, 3, 1), None);
    assert_eq!(Dijkstra::shortest_path(&g, 3, 1), None);
}

#[test]
fn search_hands_back_hops_and_links() {
    let g = simple_graph();
    let (hops, previous) = BFS::shortest_path_util(&g, 1, 6).unwrap();
    assert_eq!(hops, 3);
    assert_eq!(previous.get(&6), Some(&4));
    assert_eq!(previous.get(&4), Some(&5));
    assert_eq!(previous.get(&5), Some(&1));
    assert_eq!(previous.get(&1), None);
    let (cost, links) = Dijkstra::shortest_path_util(&g, 1, 6).unwrap();
    assert_eq!(cost, 3);
    assert_eq!(links.get(&6), Some(&4));
    assert_eq!(links.get(&4), Some(&5));
    assert_eq!(links.get(&5), Some(&1));
    assert!(BFS::shortest_path_util(&g, 1, 7).is_none());
    assert!(Dijkstra::shortest_path_util(&g, 1, 7).is_none());
}

#[test]
fn dijkstra_looks_at_the_greater_node_first_among_equals() {
    let mut g: Graph<u8> = Graph::new();
    g.add_edges_from(vec![(1, 2), (1, 3), (2, 4), (3, 4)]);
    assert_eq!(Dijkstra::shortest_path(&g, 1, 4), Some(vec![1, 3, 4]));
}

#[test]
fn build_path_walks_the_links_and_takes_them_out() {
    let mut previous: HashMap<u8, u8> = HashMap::from([(3, 2), (2, 1), (9, 1)]);
    let path = build_path(&mut previous, 1, 3);
    assert_eq!(path, vec![1, 2, 3]);
    assert_eq!(previous, HashMap::from([(9, 1)]));
}

#[test]
fn build_path_of_no_step_is_the_source() {
    let mut previous: HashMap<u8, u8> = HashMap::from([(3, 2)]);
    let path = build_path(&mut previous, 5, 5);
    assert_eq!(path, vec![5]);
    assert_eq!(previous, HashMap::from([(3, 2)]));
}

#[test]
fn queue_hands_out_the_least_cost_first() {
    let mut queue: MinQueue<u8> = MinQueue::new();
    for (cost, node) in [(5usize, 1u8), (3, 2), (8, 3), (1, 4), (3, 5), (0, 6), (7, 7)] {
        queue.push(State { cost, node });
    }
    assert_eq!(queue.len(), 7);
    let mut out: Vec<(usize, u8)> = Vec::new();
    while let Some(state) = queue.pop() {
        out.push((state.cost, state.node));
    }
    assert_eq!(out, vec![(0, 6), (1, 4), (3, 5), (3, 2), (5, 1), (7, 7), (8, 3)]);
    assert_eq!(queue.len(), 0);
}

#[test]
fn empty_queue_hands_out_nothing() {
    let mut queue: MinQueue<u8> = MinQueue::new();
    assert!(queue.pop().is_none());
    assert_eq!(queue.len(), 0);
    queue.push(State { cost: 2, node: 9 });
    let only = queue.pop().unwrap();
    assert_eq!((only.cost, only.node), (2, 9));
    assert!(queue.pop().is_none());
}

#[test]
fn state_precedes_by_cost_then_by_greater_node() {
    let cheap = State { cost: 1usize, node: 1u8 };
    let dear = State { cost: 2usize, node: 9u8 };
    let cheap_and_great = State { cost: 1usize, node: 7u8 };
    assert!(cheap.precedes(&dear));
    assert!(!dear.precedes(&cheap));
    assert!(cheap_and_great.precedes(&cheap));
    assert!(!cheap.precedes(&cheap_and_great));
    assert!(!cheap.precedes(&cheap));
}
