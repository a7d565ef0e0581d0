use graph_reduce::graph::Graph;
use graph_reduce::GraphReduce;
use graph_reduce::StartError;

/// Builds a graph from named edges. The nodes are numbered in the order in
/// which their names first occur.
fn graph(edges: &[(&'static str, &'static str)]) -> (Graph, Vec<&'static str>) {
    let mut graph = Graph::new();
    let mut names: Vec<&'static str> = Vec::new();
    for &(source, target) in edges {
        for name in [source, target] {
            if !names.contains(&name) {
                names.push(name);
                graph.add_node();
            }
        }
    }
    for &(source, target) in edges {
        graph.add_edge(node(&names, source), node(&names, target));
    }
    (graph, names)
}

fn node(names: &[&'static str], name: &str) -> usize {
    names.iter().position(|n| *n == name).unwrap()
}

/// The edges of the reduced graph by the names of their ends, sorted.
fn reduced_edges(graph: &Graph, names: &[&'static str], outputs: &[usize]) -> Vec<String> {
    let reduce = GraphReduce::new(graph, outputs);
    let result = reduce.compute();
    let mut edges: Vec<String> = result
        .edges
        .iter()
        .map(|&(source, target)| {
            format!("{} -> {}", names[result.nodes[source]], names[result.nodes[target]])
        })
        .collect();
    edges.sort();
    edges
}

fn reduce(graph: &Graph, names: &[&'static str], outputs: &[usize], expected: &[&'static str]) {
    let edges = reduced_edges(graph, names, outputs);
    println!("{:#?}", edges);
    assert_eq!(edges.len(), expected.len());
    for (expected, actual) in expected.iter().zip(&edges) {
        assert_eq!(expected, actual);
    }
}

#[test]
fn test1() {
    let (graph, names) = graph(&[
        ("A", "C0"),
        ("A", "C1"),
        ("B", "C1"),
        ("C0", "C1"),
        ("C1", "C0"),
        ("C0", "D"),
        ("C1", "E"),
    ]);
    reduce(
        &graph,
        &names,
        &[node(&names, "D"), node(&names, "E")],
        &["A -> C1", "B -> C1", "C1 -> D", "C1 -> E"],
    );
}

#[test]
fn test2() {
    let (graph, names) = graph(&[
        ("A", "C0"),
        ("A", "C1"),
        ("B", "C1"),
        ("C0", "C1"),
        ("C1", "C0"),
        ("C0", "D"),
        ("D", "E"),
    ]);
    reduce(
        &graph,
        &names,
        &[node(&names, "D"), node(&names, "E")],
        &["A -> D", "B -> D", "D -> E"],
    );
}

#[test]
fn chain_elides_the_middle() {
    let (graph, names) = graph(&[("A", "B"), ("B", "C")]);
    reduce(&graph, &names, &[node(&names, "C")], &["A -> C"]);
}

#[test]
fn diamond_keeps_both_edges() {
    let (graph, names) = graph(&[("A", "B"), ("A", "C"), ("B", "D"), ("C", "D")]);
    reduce(&graph, &names, &[node(&names, "D")], &["A -> D", "A -> D"]);
}

#[test]
fn disconnected_outputs() {
    let (graph, names) = graph(&[("A", "D"), ("B", "E")]);
    reduce(
        &graph,
        &names,
        &[node(&names, "D"), node(&names, "E")],
        &["A -> D", "B -> E"],
    );
}

#[test]
fn node_with_only_a_self_loop_is_no_leaf() {
    // `A` has an input, itself, so the walk does not record it as a leaf,
    // and nothing but the output is retained.
    let (graph, names) = graph(&[("A", "A"), ("A", "B")]);
    let outputs = [node(&names, "B")];
    let result = GraphReduce::new(&graph, &outputs).compute();
    assert_eq!(result.nodes, vec![node(&names, "B")]);
    assert_eq!(result.edges, vec![]);
}

#[test]
fn self_loop_beside_a_real_input() {
    let (graph, names) = graph(&[("X", "A"), ("A", "A"), ("A", "B")]);
    reduce(&graph, &names, &[node(&names, "B")], &["X -> B"]);
}

#[test]
fn merge_point_is_retained() {
    // WP0 and WP1 both depend on Y, which depends on four inputs:
    // keeping Y makes six edges where dropping it would make eight.
    let (graph, names) = graph(&[
        ("I0", "Y"),
        ("I1", "Y"),
        ("I2", "Y"),
        ("I3", "Y"),
        ("Y", "WP0"),
        ("Y", "WP1"),
    ]);
    reduce(
        &graph,
        &names,
        &[node(&names, "WP0"), node(&names, "WP1")],
        &["I0 -> Y", "I1 -> Y", "I2 -> Y", "I3 -> Y", "Y -> WP0", "Y -> WP1"],
    );
}

#[test]
fn nodes_come_in_order_starts_leaves_merge_points() {
    let (graph, names) = graph(&[
        ("A", "C0"),
        ("A", "C1"),
        ("B", "C1"),
        ("C0", "C1"),
        ("C1", "C0"),
        ("C0", "D"),
        ("C1", "E"),
    ]);
    let outputs = [node(&names, "D"), node(&names, "E")];
    let result = GraphReduce::new(&graph, &outputs).compute();
    let nodes: Vec<&str> = result.nodes.iter().map(|&n| names[n]).collect();
    // the walk from D opens C0, whose inputs are A and C1; B is an input of C1
    assert_eq!(nodes, vec!["D", "E", "A", "B", "C1"]);
    // edges come by target, in the order of the input graph's nodes
    assert_eq!(result.edges, vec![(2, 4), (4, 0), (4, 1), (3, 4)]);
}

#[test]
fn start_nodes_and_leaves_are_retained() {
    let (graph, names) = graph(&[
        ("L0", "M"),
        ("L1", "M"),
        ("M", "N"),
        ("N", "O0"),
        ("L1", "O1"),
        ("O0", "O1"),
    ]);
    let outputs = [node(&names, "O0"), node(&names, "O1")];
    let result = GraphReduce::new(&graph, &outputs).compute();
    for name in ["O0", "O1", "L0", "L1"] {
        assert!(result.nodes.contains(&node(&names, name)), "{} is missing", name);
    }
    // no head is named twice
    for (i, n) in result.nodes.iter().enumerate() {
        assert!(!result.nodes[..i].contains(n));
    }
}

#[test]
fn repeated_start_node_is_retained_once() {
    let (graph, names) = graph(&[("A", "B")]);
    let b = node(&names, "B");
    let outputs = [b, b];
    let result = GraphReduce::new(&graph, &outputs).compute();
    assert_eq!(result.nodes, vec![b, node(&names, "A")]);
    assert_eq!(result.edges, vec![(1, 0)]);
}

#[test]
fn start_node_without_inputs_is_start_and_leaf() {
    let mut graph = Graph::new();
    let a = graph.add_node();
    let outputs = [a];
    let result = GraphReduce::new(&graph, &outputs).compute();
    assert_eq!(result.nodes, vec![a]);
    assert_eq!(result.edges, vec![]);
}

#[test]
fn empty_graph_reduces_to_nothing() {
    let graph = Graph::new();
    let outputs: [usize; 0] = [];
    let result = GraphReduce::new(&graph, &outputs).compute();
    assert_eq!(result.nodes, vec![]);
    assert_eq!(result.edges, vec![]);
}

#[test]
fn unreached_nodes_are_left_out() {
    let (graph, names) = graph(&[("A", "B"), ("X", "Y")]);
    reduce(&graph, &names, &[node(&names, "B")], &["A -> B"]);
}

#[test]
fn start_node_reached_from_an_earlier_one_may_lie_on_a_cycle() {
    // X and Y form a cycle below the first output; X is an output too.
    let (graph, names) = graph(&[("A", "X"), ("X", "Y"), ("Y", "X"), ("X", "O")]);
    let outputs = [node(&names, "O"), node(&names, "X")];
    let edges = reduced_edges(&graph, &names, &outputs);
    assert_eq!(edges, vec!["A -> Y", "Y -> O"]);
}

#[test]
fn reduction_is_deterministic() {
    let edges = [
        ("A", "C0"),
        ("A", "C1"),
        ("B", "C1"),
        ("C0", "C1"),
        ("C1", "C0"),
        ("C0", "D"),
        ("C1", "E"),
    ];
    let (graph1, names) = graph(&edges);
    let (graph2, _) = graph(&edges);
    let outputs = [node(&names, "D"), node(&names, "E")];
    let first = GraphReduce::new(&graph1, &outputs).compute();
    let second = GraphReduce::new(&graph2, &outputs).compute();
    assert_eq!(first.nodes, second.nodes);
    assert_eq!(first.edges, second.edges);
}

#[test]
fn only_the_node_where_paths_meet_is_kept() {
    // M has one dependent, P, and is elided; P has two and stays.
    let (graph, names) = graph(&[
        ("I0", "M"),
        ("I1", "M"),
        ("M", "P"),
        ("P", "O0"),
        ("P", "O1"),
        ("I1", "O1"),
    ]);
    let outputs = [node(&names, "O0"), node(&names, "O1")];
    let edges = reduced_edges(&graph, &names, &outputs);
    assert_eq!(
        edges,
        vec!["I0 -> P", "I1 -> O1", "I1 -> P", "P -> O0", "P -> O1"]
    );
}

#[test]
fn try_compute_gives_what_compute_gives() {
    let (graph, names) = graph(&[("A", "B"), ("A", "C"), ("B", "D"), ("C", "D")]);
    let outputs = [node(&names, "D")];
    let tried = GraphReduce::new(&graph, &outputs).try_compute().unwrap();
    let computed = GraphReduce::new(&graph, &outputs).compute();
    assert_eq!(tried.nodes, computed.nodes);
    assert_eq!(tried.edges, computed.edges);
    assert_eq!(tried.edges, vec![(1, 0), (1, 0)]);
}

#[test]
fn try_compute_refuses_a_start_node_on_a_cycle() {
    let (graph, names) = graph(&[("X", "Y"), ("Y", "X")]);
    let outputs = [node(&names, "X")];
    let result = GraphReduce::new(&graph, &outputs).try_compute();
    assert_eq!(result.err(), Some(StartError::OnCycle(0)));
}

#[test]
fn try_compute_refuses_a_later_start_node_on_a_cycle() {
    let (graph, names) = graph(&[("A", "B"), ("X", "Y"), ("Y", "X")]);
    let outputs = [node(&names, "B"), node(&names, "Y")];
    let result = GraphReduce::new(&graph, &outputs).try_compute();
    assert_eq!(result.err(), Some(StartError::OnCycle(1)));
}

#[test]
fn try_compute_names_the_first_start_node_on_a_cycle() {
    let (graph, names) = graph(&[("A", "B"), ("X", "Y"), ("Y", "X"), ("P", "Q"), ("Q", "P")]);
    let outputs = [node(&names, "B"), node(&names, "Q"), node(&names, "B"), node(&names, "X")];
    let result = GraphReduce::new(&graph, &outputs).try_compute();
    assert_eq!(result.err(), Some(StartError::OnCycle(1)));
}

#[test]
fn try_compute_passes_over_a_start_node_that_an_earlier_one_reaches() {
    // X lies on a cycle, but O reaches it; P is the first at fault
    let (graph, names) = graph(&[("X", "Y"), ("Y", "X"), ("X", "O"), ("P", "Q"), ("Q", "P")]);
    let outputs = [node(&names, "O"), node(&names, "X"), node(&names, "P")];
    let result = GraphReduce::new(&graph, &outputs).try_compute();
    assert_eq!(result.err(), Some(StartError::OnCycle(2)));
}

#[test]
fn try_compute_accepts_a_cycle_below_an_earlier_start_node() {
    let (graph, names) = graph(&[("A", "X"), ("X", "Y"), ("Y", "X"), ("X", "O")]);
    let outputs = [node(&names, "O"), node(&names, "X")];
    let result = GraphReduce::new(&graph, &outputs).try_compute().unwrap();
    let nodes: Vec<&str> = result.nodes.iter().map(|&n| names[n]).collect();
    assert_eq!(nodes, vec!["O", "Y", "A"]);
}

#[test]
fn try_compute_accepts_a_start_node_with_a_self_loop() {
    let (graph, names) = graph(&[("X", "X"), ("A", "X")]);
    let outputs = [node(&names, "X")];
    let result = GraphReduce::new(&graph, &outputs).try_compute().unwrap();
    assert_eq!(result.nodes, vec![node(&names, "X"), node(&names, "A")]);
    assert_eq!(result.edges, vec![(1, 0)]);
}

#[test]
fn try_compute_refuses_a_start_node_that_is_no_node() {
    let (graph, _) = graph(&[("A", "B")]);
    let outputs = [0, 2];
    let result = GraphReduce::new(&graph, &outputs).try_compute();
    assert_eq!(result.err(), Some(StartError::OutOfRange(1)));
}

#[test]
fn try_compute_names_the_first_start_node_that_is_no_node() {
    let (graph, _) = graph(&[("A", "B")]);
    let outputs = [1, 7, 0, 9];
    let result = GraphReduce::new(&graph, &outputs).try_compute();
    assert_eq!(result.err(), Some(StartError::OutOfRange(1)));
}

#[test]
fn try_compute_looks_for_start_nodes_that_are_no_nodes_first() {
    let (graph, names) = graph(&[("X", "Y"), ("Y", "X")]);
    let outputs = [node(&names, "X"), 2];
    let result = GraphReduce::new(&graph, &outputs).try_compute();
    assert_eq!(result.err(), Some(StartError::OutOfRange(1)));
}
