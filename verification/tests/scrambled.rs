use nxgraph::queue::{MinQueue, State};
use nxgraph::{
    topological_generations, topological_sort, DiGraph, Dijkstra, Graph, SearchAlgorithm, BFS,
};

/// A fixed sequence of scrambled numbers.
struct Scrambler(u64);

impl Scrambler {
    fn next(&mut self, below: u64) -> u64 {
        self.0 = self.0.wrapping_mul(6364136223846793005).wrapping_add(1442695040888963407);
        (self.0 >> 33) % below
    }
}

#[test]
fn queue_sorts_many_states() {
    let mut scrambler = Scrambler(7);
    let mut queue: MinQueue<u32> = MinQueue::new();
    let mut expected: Vec<(usize, u32)> = Vec::new();
    for node in 0..300u32 {
        let cost = scrambler.next(40) as usize;
        queue.push(State { cost, node });
        expected.push((cost, node));
    }
    expected.sort_by(|a, b| a.0.cmp(&b.0).then(b.1.cmp(&a.1)));
    let mut out: Vec<(usize, u32)> = Vec::new();
    while let Some(state) = queue.pop() {
        out.push((state.cost, state.node));
    }
    assert_eq!(out, expected);
}

#[test]
fn queue_keeps_order_while_filled_and_emptied_in_turn() {
    let mut scrambler = Scrambler(11);
    let mut queue: MinQueue<u32> = MinQueue::new();
    let mut held: Vec<(usize, u32)> = Vec::new();
    for node in 0..400u32 {
        if scrambler.next(3) == 0 && !held.is_empty() {
            held.sort_by(|a, b| a.0.cmp(&b.0).then(b.1.cmp(&a.1)));
            let least = held.remove(0);
            let state = queue.pop().unwrap();
            assert_eq!((state.cost, state.node), least);
        } else {
            let cost = scrambler.next(25) as usize;
            queue.push(State { cost, node });
            held.push((cost, node));
        }
        assert_eq!(queue.len(), held.len());
    }
}

fn hops_between(size: usize, edges: &[(u16, u16)], directed: bool) -> Vec<Vec<Option<usize>>> {
    let mut hops: Vec<Vec<Option<usize>>> = vec![vec![None; size]; size];
    for i in 0..size {
        hops[i][i] = Some(0);
    }
    for (u, v) in edges {
        let (u, v) = (*u as usize, *v as usize);
        if u != v {
            hops[u][v] = Some(1);
            if !directed {
                hops[v][u] = Some(1);
            }
        }
    }
    for k in 0..size {
        for i in 0..size {
            for j in 0..size {
                if let (Some(a), Some(b)) = (hops[i][k], hops[k][j]) {
                    if hops[i][j].map_or(true, |c| a + b < c) {
                        hops[i][j] = Some(a + b);
                    }
                }
            }
        }
    }
    hops
}

#[test]
fn searches_find_the_hops_of_a_scrambled_undirected_graph() {
    let mut scrambler = Scrambler(3);
    let size = 24usize;
    let mut edges: Vec<(u16, u16)> = Vec::new();
    for _ in 0..30 {
        edges.push((scrambler.next(size as u64) as u16, scrambler.next(size as u64) as u16));
    }
    let mut g: Graph<u16> = Graph::new();
    for node in 0..size as u16 {
        g.add_node(node);
    }
    g.add_edges_from(edges.clone());
    let hops = hops_between(size, &edges, false);
    for s in 0..size as u16 {
        for t in 0..size as u16 {
            let expected = hops[s as usize][t as usize];
            assert_eq!(BFS::shortest_path_length(&g, s, t), expected);
            assert_eq!(Dijkstra::shortest_path_length(&g, s, t), expected);
            assert_eq!(BFS::has_path(&g, s, t), expected.is_some());
            for path in [BFS::shortest_path(&g, s, t), Dijkstra::shortest_path(&g, s, t)] {
                assert_eq!(path.is_some(), expected.is_some());
                if let Some(p) = path {
                    assert_eq!(p.len(), expected.unwrap() + 1);
                    assert_eq!(p[0], s);
                    assert_eq!(p[p.len() - 1], t);
                    for pair in p.windows(2) {
                        assert!(g.adj(&pair[0]).unwrap().contains(&pair[1]));
                    }
                }
            }
        }
    }
}

#[test]
fn searches_find_the_hops_of_a_scrambled_directed_graph() {
    let mut scrambler = Scrambler(5);
    let size = 20usize;
    let mut edges: Vec<(u16, u16)> = Vec::new();
    for _ in 0..45 {
        edges.push((scrambler.next(size as u64) as u16, scrambler.next(size as u64) as u16));
    }
    let mut g: DiGraph<u16> = DiGraph::new();
    for node in 0..size as u16 {
        g.add_node(node);
    }
    g.add_edges_from(edges.clone());
    let hops = hops_between(size, &edges, true);
    for s in 0..size as u16 {
        for t in 0..size as u16 {
            let expected = hops[s as usize][t as usize];
            assert_eq!(BFS::shortest_path_length(&g, s, t), expected);
            assert_eq!(Dijkstra::shortest_path_length(&g, s, t), expected);
        }
    }
}

#[test]
fn sort_layers_a_scrambled_graph_without_cycles() {
    let mut scrambler = Scrambler(9);
    let size = 40u16;
    let mut edges: Vec<(u16, u16)> = Vec::new();
    for _ in 0..90 {
        let a = scrambler.next(size as u64) as u16;
        let b = scrambler.next(size as u64) as u16;
        if a < b {
            edges.push((a, b));
        } else if b < a {
            edges.push((b, a));
        }
    }
    let mut g: DiGraph<u16> = DiGraph::new();
    for node in 0..size {
        g.add_node(node);
    }
    g.add_edges_from(edges.clone());

    let mut depth: Vec<usize> = vec![0; size as usize];
    for v in 0..size {
        for (a, b) in edges.iter() {
            if *b == v {
                depth[v as usize] = depth[v as usize].max(depth[*a as usize] + 1);
            }
        }
    }
    let layers = depth.iter().max().unwrap() + 1;
    let mut expected: Vec<Vec<u16>> = vec![Vec::new(); layers];
    for v in 0..size {
        expected[depth[v as usize]].push(v);
    }

    let mut generations = topological_generations(&g).ok().unwrap();
    for generation in generations.iter_mut() {
        generation.sort();
    }
    assert_eq!(generations, expected);

    let order = topological_sort(&g).ok().unwrap();
    assert_eq!(order.len(), size as usize);
    let place = |x: u16| order.iter().position(|y| *y == x).unwrap();
    for (a, b) in edges.iter() {
        assert!(place(*a) < place(*b));
    }
}

#[test]
fn sort_fails_on_scrambled_graphs_with_a_cycle() {
    let mut scrambler = Scrambler(13);
    for _ in 0..20 {
        let size = 12u16;
        let mut g: DiGraph<u16> = DiGraph::new();
        for _ in 0..15 {
            let a = scrambler.next(size as u64) as u16;
            let b = scrambler.next(size as u64) as u16;
            if a < b {
                g.add_edge(a, b);
            }
        }
        assert!(topological_sort(&g).is_ok());
        let edges = g.edges();
        if let Some((a, b)) = edges.first() {
            g.add_edge(*b, *a);
            assert!(topological_sort(&g).is_err());
            assert!(topological_generations(&g).is_err());
        }
    }
}
