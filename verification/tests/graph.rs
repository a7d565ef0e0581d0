use graph_reduce::graph::Graph;

#[test]
fn new_graph_is_empty() {
    let graph = Graph::new();
    assert_eq!(graph.len_nodes(), 0);
}

#[test]
fn nodes_are_numbered_in_order() {
    let mut graph = Graph::new();
    assert_eq!(graph.add_node(), 0);
    assert_eq!(graph.add_node(), 1);
    assert_eq!(graph.add_node(), 2);
    assert_eq!(graph.len_nodes(), 3);
}

#[test]
fn predecessors_come_in_the_order_of_their_edges() {
    let mut graph = Graph::new();
    let a = graph.add_node();
    let b = graph.add_node();
    let c = graph.add_node();
    graph.add_edge(b, a);
    graph.add_edge(c, a);
    graph.add_edge(b, a);
    graph.add_edge(a, c);
    assert_eq!(graph.predecessor_nodes(a), &vec![b, c, b]);
    assert_eq!(graph.predecessor_nodes(b), &Vec::<usize>::new());
    assert_eq!(graph.predecessor_nodes(c), &vec![a]);
}
