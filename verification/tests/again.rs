use graph_reduce::classify::Classify;
use graph_reduce::construct::Reduced;
use graph_reduce::graph::Graph;
use graph_reduce::GraphReduce;

fn graph_of(nodes: usize, edges: &[(usize, usize)]) -> Graph {
    let mut graph = Graph::new();
    for _ in 0..nodes {
        graph.add_node();
    }
    for &(source, target) in edges {
        graph.add_edge(source, target);
    }
    graph
}

/// Reduces `reduced`, taken as a graph, from all of its nodes.
fn reduce_again(reduced: &Reduced) -> Reduced {
    let graph = reduced.to_graph();
    let all: Vec<usize> = (0..reduced.nodes.len()).collect();
    GraphReduce::new(&graph, &all).compute()
}

fn sorted(edges: &[(usize, usize)]) -> Vec<(usize, usize)> {
    let mut edges = edges.to_vec();
    edges.sort();
    edges
}

#[test]
fn to_graph_lists_the_sources_of_each_node() {
    // 0 -> 1 -> 2, reduced from 2: the nodes 2 and 0, and an edge from 0 to 2
    let graph = graph_of(3, &[(0, 1), (1, 2)]);
    let reduced = GraphReduce::new(&graph, &[2]).compute();
    assert_eq!(reduced.nodes, vec![2, 0]);
    assert_eq!(reduced.edges, vec![(1, 0)]);
    let again = reduced.to_graph();
    assert_eq!(again.len_nodes(), 2);
    assert_eq!(again.predecessor_nodes(0), &vec![1]);
    assert_eq!(again.predecessor_nodes(1), &Vec::<usize>::new());
}

#[test]
fn to_graph_keeps_the_order_of_the_edges() {
    let reduced = Reduced { nodes: vec![7, 8, 9], edges: vec![(2, 0), (1, 0), (2, 1), (2, 0)] };
    let graph = reduced.to_graph();
    assert_eq!(graph.len_nodes(), 3);
    assert_eq!(graph.predecessor_nodes(0), &vec![2, 1, 2]);
    assert_eq!(graph.predecessor_nodes(1), &vec![2]);
    assert_eq!(graph.predecessor_nodes(2), &Vec::<usize>::new());
}

#[test]
fn to_graph_of_nothing_is_the_empty_graph() {
    let reduced = Reduced { nodes: Vec::new(), edges: Vec::new() };
    assert_eq!(reduced.to_graph().len_nodes(), 0);
}

#[test]
fn reducing_a_reduced_graph_changes_nothing() {
    // two nodes on a cycle, two nodes before it and two after it
    let graph = graph_of(
        7,
        &[(0, 2), (0, 3), (1, 3), (2, 3), (3, 2), (2, 4), (3, 5)],
    );
    let reduced = GraphReduce::new(&graph, &[4, 5]).compute();
    assert_eq!(reduced.nodes.len(), 5);
    assert_eq!(reduced.edges.len(), 4);
    let again = reduce_again(&reduced);
    assert_eq!(again.nodes, vec![0, 1, 2, 3, 4]);
    assert_eq!(sorted(&again.edges), sorted(&reduced.edges));
    let third = reduce_again(&again);
    assert_eq!(third.nodes, again.nodes);
    assert_eq!(sorted(&third.edges), sorted(&again.edges));
}

#[test]
fn reducing_a_reduced_chain_changes_nothing() {
    let graph = graph_of(4, &[(0, 1), (1, 2), (2, 3)]);
    let reduced = GraphReduce::new(&graph, &[3]).compute();
    assert_eq!(reduced.nodes, vec![3, 0]);
    assert_eq!(reduced.edges, vec![(1, 0)]);
    let again = reduce_again(&reduced);
    assert_eq!(again.nodes, vec![0, 1]);
    assert_eq!(again.edges, vec![(1, 0)]);
}

#[test]
fn reducing_again_leaves_one_of_two_equal_edges() {
    // both paths of the diamond become an edge from 0 to 3
    let graph = graph_of(4, &[(0, 1), (0, 2), (1, 3), (2, 3)]);
    let reduced = GraphReduce::new(&graph, &[3]).compute();
    assert_eq!(reduced.nodes, vec![3, 0]);
    assert_eq!(reduced.edges, vec![(1, 0), (1, 0)]);
    let again = reduce_again(&reduced);
    assert_eq!(again.nodes, vec![0, 1]);
    assert_eq!(again.edges, vec![(1, 0)]);
}

#[test]
fn a_reduced_graph_can_be_reduced_from_all_of_its_nodes() {
    let graph = graph_of(5, &[(0, 1), (1, 0), (1, 2), (3, 2), (2, 4)]);
    let reduced = GraphReduce::new(&graph, &[4]).compute();
    let all: Vec<usize> = (0..reduced.nodes.len()).collect();
    let again = reduced.to_graph();
    assert!(GraphReduce::new(&again, &all).try_compute().is_ok());
}

/// Whether `edges` hold a path from `from` to `to`, of no edge or more.
fn reaches(edges: &[(usize, usize)], from: usize, to: usize) -> bool {
    let mut seen = vec![from];
    let mut next = 0;
    while next < seen.len() {
        let at = seen[next];
        next += 1;
        for &(source, target) in edges {
            if source == at && !seen.contains(&target) {
                seen.push(target);
            }
        }
    }
    seen.contains(&to)
}

#[test]
fn reduced_graph_keeps_the_paths_between_its_nodes() {
    // 0 and 1 feed the cycle of 2 and 3; the cycle feeds 4 and 5; 6 feeds 5
    let edges = [(0, 2), (0, 3), (1, 3), (2, 3), (3, 2), (2, 4), (3, 5), (6, 5)];
    let graph = graph_of(7, &edges);
    let reduced = GraphReduce::new(&graph, &[4, 5]).compute();
    assert_eq!(reduced.nodes.len(), 6);
    for (i, &a) in reduced.nodes.iter().enumerate() {
        for (j, &b) in reduced.nodes.iter().enumerate() {
            assert_eq!(reaches(&reduced.edges, i, j), reaches(&edges, a, b), "{} to {}", a, b);
        }
    }
}

#[test]
fn reduced_graph_has_no_cycle() {
    let edges = [(0, 2), (0, 3), (1, 3), (2, 3), (3, 2), (2, 4), (3, 5), (4, 5)];
    let graph = graph_of(6, &edges);
    let reduced = GraphReduce::new(&graph, &[5]).compute();
    assert!(!reduced.edges.is_empty());
    for &(source, target) in &reduced.edges {
        assert!(!reaches(&reduced.edges, target, source));
    }
}

#[test]
fn nodes_on_a_cycle_that_the_walk_finds_are_one_class() {
    // 1 -> 2 -> 3 -> 1, and 3 -> 0
    let graph = graph_of(4, &[(1, 2), (2, 3), (3, 1), (3, 0)]);
    let outputs = [0];
    let mut reduce = GraphReduce::new(&graph, &outputs);
    let reduced = GraphReduce::new(&graph, &outputs).compute();
    Classify::new(&mut reduce).walk();
    assert!(reduce.in_cycle(1, 2));
    assert!(reduce.in_cycle(2, 3));
    assert!(!reduce.in_cycle(0, 3));
    // the start node alone is left: the cycle has no input from outside
    assert_eq!(reduced.nodes, vec![0]);
    assert_eq!(reduced.edges, vec![]);
}

#[test]
fn a_cross_edge_that_closes_a_cycle_leaves_the_cycle_in_two_classes() {
    // 1 feeds 0; 1 and 2 feed each other; 3 feeds 1, and 2 feeds 3.
    // The walk from 0 merges 1 and 2, finishes 2, and then finds 3 with
    // its edge to the finished 2: 3 lies on a cycle with 1 and 2, and
    // stays in a class of its own.
    let graph = graph_of(4, &[(1, 0), (2, 1), (1, 2), (3, 1), (2, 3)]);
    let outputs = [0];
    let mut reduce = GraphReduce::new(&graph, &outputs);
    let dag = Classify::new(&mut reduce).walk();
    assert_eq!(dag.cross_edges, vec![(3, 2)]);
    assert!(reduce.in_cycle(1, 2));
    assert!(!reduce.in_cycle(1, 3));
    // the reduced graph then has an edge from the merged class to itself
    let reduced = GraphReduce::new(&graph, &outputs).compute();
    assert_eq!(reduced.nodes.len(), 2);
    assert_eq!(reduced.edges, vec![(1, 0), (1, 1)]);
}
