use graph_reduce::classify::Classify;
use graph_reduce::graph::Graph;
use graph_reduce::GraphReduce;
use graph_reduce::StartError;

fn cycle_graph() -> (Graph, [usize; 6]) {
    // A -> C0, A -> C1, B -> C1, C0 -> C1, C1 -> C0, C0 -> D, C1 -> E
    let mut graph = Graph::new();
    let a = graph.add_node();
    let c0 = graph.add_node();
    let c1 = graph.add_node();
    let b = graph.add_node();
    let d = graph.add_node();
    let e = graph.add_node();
    graph.add_edge(a, c0);
    graph.add_edge(a, c1);
    graph.add_edge(b, c1);
    graph.add_edge(c0, c1);
    graph.add_edge(c1, c0);
    graph.add_edge(c0, d);
    graph.add_edge(c1, e);
    (graph, [a, b, c0, c1, d, e])
}

#[test]
fn detect_cycles() {
    let (graph, [a, b, c0, c1, d, e]) = cycle_graph();
    let outputs = [d, e];
    let mut reduce = GraphReduce::new(&graph, &outputs);
    Classify::new(&mut reduce).walk();

    assert!(!reduce.in_cycle(a, c0));
    assert!(!reduce.in_cycle(b, c0));
    assert!(reduce.in_cycle(c0, c1));
    assert!(!reduce.in_cycle(d, c0));
    assert!(!reduce.in_cycle(e, c0));
    assert!(!reduce.in_cycle(e, a));
}

#[test]
fn walk_records_parents_cross_edges_and_leaves() {
    let (graph, [a, b, c0, c1, d, e]) = cycle_graph();
    let outputs = [d, e];
    let mut reduce = GraphReduce::new(&graph, &outputs);
    let dag = Classify::new(&mut reduce).walk();

    // nodes are numbered a, c0, c1, b, d, e
    assert_eq!(dag.parents, vec![c0, d, c0, c1, d, e]);
    assert_eq!(dag.cross_edges, vec![(c1, a), (e, c1)]);
    assert_eq!(dag.leaf_nodes, vec![a, b]);
    assert_eq!(reduce.cycle_head(c0), c1);
    assert_eq!(reduce.cycle_head(c1), c1);
    assert_eq!(reduce.cycle_head(a), a);
}

#[test]
fn finished_sibling_is_not_merged_into_a_later_cycle() {
    // R has the input P; P has the inputs X and Y; Y has the input P.
    // When the edge from Y back to P is seen, X is finished, and only
    // P and Y lie on the cycle.
    let mut graph = Graph::new();
    let r = graph.add_node();
    let p = graph.add_node();
    let x = graph.add_node();
    let y = graph.add_node();
    graph.add_edge(p, r);
    graph.add_edge(x, p);
    graph.add_edge(y, p);
    graph.add_edge(p, y);
    let outputs = [r];
    let mut reduce = GraphReduce::new(&graph, &outputs);
    Classify::new(&mut reduce).walk();

    assert!(reduce.in_cycle(p, y));
    assert!(!reduce.in_cycle(x, p));
    assert!(!reduce.in_cycle(x, y));
    assert!(!reduce.in_cycle(r, p));
}

#[test]
fn long_cycle_is_one_class() {
    // R <- N0 <- N1 <- N2 <- N3 <- N0
    let mut graph = Graph::new();
    let r = graph.add_node();
    let n: Vec<usize> = (0..4).map(|_| graph.add_node()).collect();
    graph.add_edge(n[0], r);
    graph.add_edge(n[1], n[0]);
    graph.add_edge(n[2], n[1]);
    graph.add_edge(n[3], n[2]);
    graph.add_edge(n[0], n[3]);
    let outputs = [r];
    let mut reduce = GraphReduce::new(&graph, &outputs);
    let dag = Classify::new(&mut reduce).walk();

    for i in 0..4 {
        for j in 0..4 {
            assert!(reduce.in_cycle(n[i], n[j]));
        }
        assert!(!reduce.in_cycle(r, n[i]));
    }
    assert_eq!(dag.cross_edges, vec![]);
    assert_eq!(dag.leaf_nodes, vec![]);
}

#[test]
fn walk_without_start_nodes_visits_nothing() {
    let (graph, nodes) = cycle_graph();
    let outputs: [usize; 0] = [];
    let mut reduce = GraphReduce::new(&graph, &outputs);
    let dag = Classify::new(&mut reduce).walk();
    assert_eq!(dag.parents, vec![0, 1, 2, 3, 4, 5]);
    assert_eq!(dag.cross_edges, vec![]);
    assert_eq!(dag.leaf_nodes, vec![]);
    for &u in &nodes {
        for &v in &nodes {
            assert_eq!(reduce.in_cycle(u, v), u == v);
        }
    }
}

#[test]
fn try_walk_records_what_walk_records() {
    let (graph, [_, _, _, _, d, e]) = cycle_graph();
    let outputs = [d, e];
    let mut first = GraphReduce::new(&graph, &outputs);
    let walked = Classify::new(&mut first).walk();
    let mut second = GraphReduce::new(&graph, &outputs);
    let tried = Classify::new(&mut second).try_walk().unwrap();
    assert_eq!(walked.parents, tried.parents);
    assert_eq!(walked.cross_edges, tried.cross_edges);
    assert_eq!(walked.leaf_nodes, tried.leaf_nodes);
}

#[test]
fn try_walk_refuses_a_start_node_on_a_cycle() {
    let (graph, [_, _, c0, c1, _, _]) = cycle_graph();
    let outputs = [c0];
    let mut reduce = GraphReduce::new(&graph, &outputs);
    let result = Classify::new(&mut reduce).try_walk();
    assert_eq!(result.err(), Some(StartError::OnCycle(0)));
    // the cycle was merged all the same
    assert!(reduce.in_cycle(c0, c1));
}
