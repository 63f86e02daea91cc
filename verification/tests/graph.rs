use cwe_checker_lib::graph::FlowGraph;

#[test]
fn graph_counts_and_endpoints() {
    let mut g = FlowGraph::new();
    assert_eq!(g.node_count(), 0);
    assert_eq!(g.add_node(), 0);
    assert_eq!(g.add_node(), 1);
    assert_eq!(g.add_node(), 2);
    assert_eq!(g.add_edge(0, 1), 0);
    assert_eq!(g.add_edge(0, 2), 1);
    assert_eq!(g.add_edge(2, 2), 2);
    assert_eq!(g.node_count(), 3);
    assert_eq!(g.edge_endpoints(1), Some((0, 2)));
    assert_eq!(g.edge_endpoints(3), None);
}

#[test]
fn outgoing_edges_newest_first() {
    let mut g = FlowGraph::new();
    for _ in 0..3 {
        g.add_node();
    }
    g.add_edge(0, 1);
    g.add_edge(1, 2);
    g.add_edge(0, 2);
    g.add_edge(0, 0);
    assert_eq!(g.edges(0), vec![3, 2, 0]);
    assert_eq!(g.edges(1), vec![1]);
    assert!(g.edges(2).is_empty());
}

#[test]
fn scc_order_lists_every_node_once() {
    let mut g = FlowGraph::new();
    for _ in 0..4 {
        g.add_node();
    }
    g.add_edge(0, 1);
    g.add_edge(1, 0);
    g.add_edge(1, 2);
    g.add_edge(2, 3);
    let order = g.scc_order();
    let mut sorted = order.clone();
    sorted.sort();
    assert_eq!(sorted, vec![0, 1, 2, 3]);
    // components in reverse topological order: the sink comes first
    assert_eq!(order[0], 3);
    assert_eq!(order[1], 2);
}
