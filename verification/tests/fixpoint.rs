use cwe_checker_lib::fixpoint::{Computation, Context};
use cwe_checker_lib::graph::FlowGraph;

struct FPContext {
    graph: FlowGraph,
    weights: Vec<u64>,
}

impl Context for FPContext {
    type NodeValue = u64;

    fn get_graph(&self) -> &FlowGraph {
        &self.graph
    }

    fn merge(&self, val1: &u64, val2: &u64) -> u64 {
        if *val1 < *val2 {
            *val1
        } else {
            *val2
        }
    }

    fn update_edge(&self, value: &u64, edge: usize) -> Option<u64> {
        Some(value + self.weights[edge])
    }

    // The specification functions of the trait, for contexts written outside Verus:
    // they are what the methods above compute.
    fn graph_spec(&self) -> &FlowGraph {
        &self.graph
    }

    fn merge_spec(&self, val1: u64, val2: u64) -> u64 {
        self.merge(&val1, &val2)
    }

    fn update_edge_spec(&self, value: u64, edge: usize) -> Option<u64> {
        self.update_edge(&value, edge)
    }
}

fn add_weighted_edge(ctx_graph: &mut FlowGraph, weights: &mut Vec<u64>, a: usize, b: usize, w: u64) {
    let e = ctx_graph.add_edge(a, b);
    assert_eq!(e, weights.len());
    weights.push(w);
}

fn chain_graph(with_back_edge: bool) -> FPContext {
    let mut graph = FlowGraph::new();
    let mut weights = Vec::new();
    for _i in 0..101 {
        graph.add_node();
    }
    for i in 0..100 {
        add_weighted_edge(&mut graph, &mut weights, i, i + 1, i as u64 % 10 + 1);
    }
    for i in 0..10 {
        add_weighted_edge(&mut graph, &mut weights, i * 10, i * 10 + 5, 0);
    }
    if with_back_edge {
        add_weighted_edge(&mut graph, &mut weights, 100, 0, 0);
    }
    FPContext { graph, weights }
}

#[test]
fn fixpoint() {
    let mut solution = Computation::new(chain_graph(true), None);
    solution.set_node_value(0, 0);
    solution.compute_with_max_steps(20);

    assert_eq!(30, *solution.get_node_value(9).unwrap());
    assert_eq!(0, *solution.get_node_value(5).unwrap());
}

#[test]
fn fixpoint_with_default_value() {
    let mut solution = Computation::new(chain_graph(false), Some(100));
    solution.set_node_value(10, 0);
    solution.compute_with_max_steps(20);

    assert_eq!(100, *solution.get_node_value(0).unwrap());
    assert_eq!(3, *solution.get_node_value(12).unwrap());
}

#[test]
fn worklist_node_order() {
    let mut graph = FlowGraph::new();
    let mut weights = Vec::new();
    for _i in 0..21 {
        graph.add_node();
    }
    for i in 1..19 {
        add_weighted_edge(&mut graph, &mut weights, 0, i, 1);
    }
    for i in 1..19 {
        add_weighted_edge(&mut graph, &mut weights, i, 19, 1);
    }
    add_weighted_edge(&mut graph, &mut weights, 19, 20, 1);
    let mut computation = Computation::new(FPContext { graph, weights }, Some(1));
    assert!(computation.node_priority_list()[0] > computation.node_priority_list()[1]);
    assert!(computation.node_priority_list()[1] > computation.node_priority_list()[19]);
    assert!(computation.node_priority_list()[19] > computation.node_priority_list()[20]);
    // assert that the nodes have the correct priority ordering
    assert_eq!(computation.take_next_node_from_worklist(), Some(0));
    for _i in 1..19 {
        assert!(computation.take_next_node_from_worklist().unwrap() < 19);
    }
    assert_eq!(computation.take_next_node_from_worklist(), Some(19));
    assert_eq!(computation.take_next_node_from_worklist(), Some(20));
}

#[test]
fn compute_reaches_shortest_distances() {
    let mut solution = Computation::new(chain_graph(true), None);
    solution.set_node_value(0, 0);
    solution.compute();
    assert!(solution.has_stabilized());
    assert!(solution.get_worklist().is_empty());
    // distances along the chain, with the shortcuts of weight 0
    assert_eq!(*solution.get_node_value(0).unwrap(), 0);
    assert_eq!(*solution.get_node_value(1).unwrap(), 1);
    assert_eq!(*solution.get_node_value(4).unwrap(), 10);
    assert_eq!(*solution.get_node_value(5).unwrap(), 0);
    assert_eq!(*solution.get_node_value(6).unwrap(), 6);
    assert_eq!(*solution.get_node_value(9).unwrap(), 30);
    assert_eq!(*solution.get_node_value(100).unwrap(), 400);
    // every edge is absorbed at its end node
    let graph = solution.get_graph();
    for e in 0..solution.get_context().weights.len() {
        let (a, b) = graph.edge_endpoints(e).unwrap();
        let va = *solution.get_node_value(a).unwrap();
        let vb = *solution.get_node_value(b).unwrap();
        assert!(vb <= va + solution.get_context().weights[e]);
    }
}

#[test]
fn zero_max_steps_changes_nothing() {
    let mut solution = Computation::new(chain_graph(false), Some(7));
    solution.set_node_value(3, 0);
    let before = solution.get_worklist();
    solution.compute_with_max_steps(0);
    assert_eq!(solution.get_worklist(), before);
    assert_eq!(*solution.get_node_value(4).unwrap(), 7);
    assert_eq!(solution.node_values().len(), 101);
}

/// Counts up along a cycle: merging takes the larger value, so it never
/// stabilizes.
struct CountingContext {
    graph: FlowGraph,
}

impl Context for CountingContext {
    type NodeValue = u64;

    fn get_graph(&self) -> &FlowGraph {
        &self.graph
    }

    fn merge(&self, val1: &u64, val2: &u64) -> u64 {
        if *val1 > *val2 {
            *val1
        } else {
            *val2
        }
    }

    fn update_edge(&self, value: &u64, _edge: usize) -> Option<u64> {
        Some(value + 1)
    }

    fn graph_spec(&self) -> &FlowGraph {
        &self.graph
    }

    fn merge_spec(&self, val1: u64, val2: u64) -> u64 {
        self.merge(&val1, &val2)
    }

    fn update_edge_spec(&self, value: u64, edge: usize) -> Option<u64> {
        self.update_edge(&value, edge)
    }
}

#[test]
fn unfinished_computation_keeps_unstable_nodes() {
    let mut graph = FlowGraph::new();
    for _i in 0..3 {
        graph.add_node();
    }
    graph.add_edge(0, 1);
    graph.add_edge(1, 0);
    let mut solution = Computation::new(CountingContext { graph }, None);
    solution.set_node_value(0, 0);
    solution.compute_with_max_steps(3);
    assert!(!solution.has_stabilized());
    let worklist = solution.get_worklist();
    assert!(!worklist.is_empty());
    // listed by increasing priority
    for pair in worklist.windows(2) {
        assert!(solution.node_priority_list()[pair[0]] < solution.node_priority_list()[pair[1]]);
    }
    // each of the two nodes was visited three times
    let v0 = *solution.get_node_value(0).unwrap();
    let v1 = *solution.get_node_value(1).unwrap();
    assert!(v0 >= 4 && v1 >= 4);
    assert!(solution.get_node_value(2).is_none());
}

#[test]
fn from_node_priority_list_inverts_order() {
    let mut graph = FlowGraph::new();
    for _i in 0..3 {
        graph.add_node();
    }
    let ctx = FPContext { graph, weights: Vec::new() };
    let mut computation = Computation::from_node_priority_list(ctx, Some(5), vec![2, 0, 1]);
    assert_eq!(computation.node_priority_list(), &vec![1, 2, 0]);
    assert_eq!(computation.take_next_node_from_worklist(), Some(1));
    assert_eq!(computation.take_next_node_from_worklist(), Some(0));
    assert_eq!(computation.take_next_node_from_worklist(), Some(2));
    assert_eq!(computation.take_next_node_from_worklist(), None);
    assert!(computation.has_stabilized());
}

#[test]
fn set_node_value_then_get() {
    let mut computation = Computation::new(chain_graph(false), None);
    assert!(computation.get_node_value(4).is_none());
    computation.set_node_value(4, 17);
    assert_eq!(computation.get_node_value(4), Some(&17));
    assert!(computation.get_node_value(5).is_none());
    computation.set_node_value(4, 3);
    assert_eq!(computation.get_node_value(4), Some(&3));
    assert!(!computation.has_stabilized());
    assert_eq!(computation.get_worklist(), vec![4]);
}

#[test]
fn priorities_follow_components_backwards() {
    let mut graph = FlowGraph::new();
    let mut weights = Vec::new();
    for _i in 0..4 {
        graph.add_node();
    }
    add_weighted_edge(&mut graph, &mut weights, 0, 1, 1);
    add_weighted_edge(&mut graph, &mut weights, 1, 2, 1);
    add_weighted_edge(&mut graph, &mut weights, 2, 1, 1);
    add_weighted_edge(&mut graph, &mut weights, 3, 0, 1);
    let computation = Computation::new(FPContext { graph, weights }, None);
    let prio = computation.node_priority_list();
    // edges between components lead to nodes of lower priority
    assert!(prio[1] < prio[0]);
    assert!(prio[2] < prio[0]);
    assert!(prio[0] < prio[3]);
}

#[test]
fn stabilized_bounded_run_matches_unbounded_run() {
    let mut bounded = Computation::new(chain_graph(true), None);
    bounded.set_node_value(0, 0);
    bounded.compute_with_max_steps(100);
    assert!(bounded.has_stabilized());
    let mut unbounded = Computation::new(chain_graph(true), None);
    unbounded.set_node_value(0, 0);
    unbounded.compute();
    assert!(unbounded.has_stabilized());
    assert_eq!(bounded.node_values(), unbounded.node_values());
}
