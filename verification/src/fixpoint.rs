//! Creating and computing generic fixpoint computations.
//!
//! A fixpoint problem is given by a directed graph, a value for some of its
//! nodes, a function that merges two node values, and for every edge a
//! transition function that computes from the value at the start node of the
//! edge the value that flows to its end node. A transition may return `None`
//! to indicate that no information flows through the edge; then the value at
//! the end node is not updated through this edge.
//!
//! A solution is an assignment of values to nodes such that for every edge the
//! value flowing through it is already absorbed by the value at its end node,
//! i.e. merging both gives the end node's value again.
//!
//! # How to compute the solution to a fixpoint problem
//!
//! A [`Context`] holds the graph and the merge and transition functions. From it
//! a [`Computation`] is created, start values are set with
//! [`Computation::set_node_value`], and [`Computation::compute`] or
//! [`Computation::compute_with_max_steps`] runs the worklist algorithm.
//! The results are read with [`Computation::get_node_value`].
//!
//! When merging forms a semilattice (it is commutative, associative and
//! idempotent) and the node values' `==` is equality, every node that is not on
//! the worklist has its outgoing edges absorbed by their end nodes throughout
//! the computation; so a computation whose worklist runs empty holds a solution.

use crate::graph::{
    lemma_outgoing_edges, lemma_scc_order_edge, outgoing_edges_spec, same_component,
    scc_decomposition, FlowGraph, GraphView,
};
use std::collections::{BTreeMap, BTreeSet};
use vstd::laws_eq::obeys_concrete_eq;
use vstd::prelude::*;

verus! {

/// The context of a fixpoint computation: the graph, how two node values are
/// merged, and how the value at the end node of an edge is computed from the
/// value at its start node.
pub trait Context {
    /// The type of the value that gets assigned to each node.
    /// The values should form a partially ordered set.
    type NodeValue: PartialEq + Eq + Clone;

    /// The graph on which the fixpoint computation operates.
    spec fn graph_spec(&self) -> &FlowGraph;

    /// Get the graph on which the fixpoint computation operates.
    fn get_graph(&self) -> (graph: &FlowGraph)
        ensures
            graph == self.graph_spec(),
    ;

    /// The merge of two values.
    spec fn merge_spec(&self, val1: Self::NodeValue, val2: Self::NodeValue) -> Self::NodeValue;

    /// This function describes how to merge two values.
    fn merge(&self, val1: &Self::NodeValue, val2: &Self::NodeValue) -> (merged: Self::NodeValue)
        ensures
            merged == self.merge_spec(*val1, *val2),
    ;

    /// The value that flows from a start value through an edge, if any.
    spec fn update_edge_spec(&self, value: Self::NodeValue, edge: usize) -> Option<
        Self::NodeValue,
    >;

    /// This function describes how the value at the end node of an edge is
    /// computed from the value at the start node of the edge. It returns `None`
    /// to indicate that no end value gets generated through this edge.
    fn update_edge(&self, value: &Self::NodeValue, edge: usize) -> (end_value: Option<
        Self::NodeValue,
    >)
        ensures
            end_value == self.update_edge_spec(*value, edge),
    ;
}

/// Merging node values is commutative, associative and idempotent.
pub open spec fn merge_is_semilattice<T: Context>(ctx: T) -> bool {
    &&& forall|a: T::NodeValue, b: T::NodeValue| #[trigger]
        ctx.merge_spec(a, b) == ctx.merge_spec(b, a)
    &&& forall|a: T::NodeValue, b: T::NodeValue, c: T::NodeValue| #[trigger]
        ctx.merge_spec(a, ctx.merge_spec(b, c)) == ctx.merge_spec(ctx.merge_spec(a, b), c)
    &&& forall|a: T::NodeValue| #[trigger] ctx.merge_spec(a, a) == a
}

/// Edge `e` is settled: if its start node has a value and is not pending, the
/// value flowing through the edge is absorbed by the value at its end node.
/// A node is pending when its priority is in `pending`.
pub open spec fn edge_settled<T: Context>(
    ctx: T,
    priorities: Seq<usize>,
    values: Map<usize, T::NodeValue>,
    pending: Set<usize>,
    e: int,
) -> bool {
    let (start, end) = ctx.graph_spec()@.edges[e];
    (values.contains_key(start) && !pending.contains(priorities[start as int])) ==> match ctx.update_edge_spec(values[start], e as usize) {
        Some(u) => values.contains_key(end) && ctx.merge_spec(u, values[end]) == values[end],
        None => true,
    }
}

/// Every value of `old_values` has a value in `new_values` that absorbs it.
pub open spec fn values_grow<T: Context>(
    ctx: T,
    old_values: Map<usize, T::NodeValue>,
    new_values: Map<usize, T::NodeValue>,
) -> bool {
    forall|k: usize|
        #[trigger] old_values.contains_key(k) ==> new_values.contains_key(k) && ctx.merge_spec(
            old_values[k],
            new_values[k],
        ) == new_values[k]
}

/// The computation struct contains an intermediate result of a fixpoint
/// computation and provides methods for continuing the fixpoint computation or
/// extracting the (intermediate or final) results.
pub struct Computation<T: Context> {
    /// The context object needed for the fixpoint computation
    fp_context: T,
    /// maps a node index to its priority (higher priority nodes get stabilized first)
    node_priority_list: Vec<usize>,
    /// maps a priority to the corresponding node index
    priority_to_node_list: Vec<usize>,
    /// The worklist contains the priority numbers (not the node indices!) of nodes
    /// marked as not yet stabilized.
    worklist: BTreeSet<usize>,
    /// The internal map containing all known node values.
    node_values: BTreeMap<usize, T::NodeValue>,
}

impl<T: Context> Computation<T> {
    /// The context of the computation.
    pub closed spec fn context(&self) -> T {
        self.fp_context
    }

    /// The graph of the computation.
    pub open spec fn graph(&self) -> GraphView {
        self.context().graph_spec()@
    }

    /// Entry `n` is the priority of node `n`.
    pub closed spec fn priorities(&self) -> Seq<usize> {
        self.node_priority_list@
    }

    /// Entry `p` is the node with priority `p`.
    pub closed spec fn priority_order(&self) -> Seq<usize> {
        self.priority_to_node_list@
    }

    /// The priorities of the nodes marked as not yet stabilized.
    pub closed spec fn worklist_spec(&self) -> Set<usize> {
        self.worklist@
    }

    /// The known node values.
    pub closed spec fn values(&self) -> Map<usize, T::NodeValue> {
        self.node_values@
    }

    /// The priorities form a permutation of the nodes, and the worklist and the
    /// node values speak of nodes of the graph only.
    pub open spec fn wf(&self) -> bool {
        let n = self.graph().node_count;
        &&& self.graph().wf()
        &&& self.priority_order().len() == n
        &&& self.priorities().len() == n
        &&& forall|p: int|
            0 <= p < n ==> #[trigger] self.priority_order()[p] < n && self.priorities()[self.priority_order()[p] as int] == p
        &&& forall|v: int|
            0 <= v < n ==> #[trigger] self.priorities()[v] < n && self.priority_order()[self.priorities()[v] as int] == v
        &&& forall|p: usize| #[trigger] self.worklist_spec().contains(p) ==> p < n
        &&& forall|v: usize| #[trigger] self.values().contains_key(v) ==> v < n
    }

    /// Every node that has a value is marked as not yet stabilized.
    pub open spec fn all_values_pending(&self) -> bool {
        forall|v: usize| #[trigger]
            self.values().contains_key(v) ==> self.worklist_spec().contains(self.priorities()[v as int])
    }

    /// Every edge whose start node is not on the worklist is settled.
    pub open spec fn is_settled(&self) -> bool {
        forall|e: int|
            0 <= e < self.graph().edges.len() ==> #[trigger] edge_settled(
                self.context(),
                self.priorities(),
                self.values(),
                self.worklist_spec(),
                e,
            )
    }

    /// The node values solve the fixpoint problem: for every edge whose start
    /// node has a value, the value flowing through it is absorbed at its end.
    pub open spec fn is_fixpoint(&self) -> bool {
        forall|e: int|
            0 <= e < self.graph().edges.len() ==> #[trigger] edge_settled(
                self.context(),
                self.priorities(),
                self.values(),
                Set::empty(),
                e,
            )
    }
}

/// A settled computation whose worklist is empty holds a solution of the
/// fixpoint problem.
pub proof fn lemma_stabilized_is_fixpoint<T: Context>(computation: Computation<T>)
    requires
        computation.is_settled(),
        computation.worklist_spec().is_empty(),
    ensures
        computation.is_fixpoint(),
{
    assert(computation.worklist_spec() =~= Set::empty());
}

/// A computation in which every node that has a value is pending is settled:
/// so is one made by `new` or `from_node_priority_list` and then given start
/// values by `set_node_value`, which keep every valued node pending. As
/// `compute` and `compute_with_max_steps` keep a computation settled (for a
/// semilattice merge), it holds a solution whenever its worklist is empty
/// afterwards ([`lemma_stabilized_is_fixpoint`]).
pub proof fn lemma_pending_values_settled<T: Context>(computation: Computation<T>)
    requires
        computation.all_values_pending(),
    ensures
        computation.is_settled(),
{
    assert forall|e: int|
        0 <= e < computation.graph().edges.len() implies #[trigger] edge_settled(
        computation.context(),
        computation.priorities(),
        computation.values(),
        computation.worklist_spec(),
        e,
    ) by {
        let (start, end) = computation.graph().edges[e];
        if computation.values().contains_key(start) {
            assert(computation.worklist_spec().contains(computation.priorities()[start as int]));
        }
    }
}

/// Taking nodes off a worklist that holds the priorities below `k` gives the
/// node of priority `k - 1` and leaves the priorities below `k - 1`: after
/// `from_node_priority_list` with a default value, successive calls of
/// `take_next_node_from_worklist` give the nodes of the priority list from its
/// last to its first, and then `None`.
pub proof fn lemma_take_in_priority_order<T: Context>(
    before: Computation<T>,
    after: Computation<T>,
    node: usize,
    k: usize,
)
    requires
        before.wf(),
        before.worklist_spec() == Set::new(|p: usize| p < k),
        node < before.graph().node_count,
        before.worklist_spec().contains(before.priorities()[node as int]),
        forall|q: usize| #[trigger]
            before.worklist_spec().contains(q) ==> q <= before.priorities()[node as int],
        after.worklist_spec() == before.worklist_spec().remove(before.priorities()[node as int]),
    ensures
        k > 0,
        node == before.priority_order()[k - 1],
        after.worklist_spec() == Set::new(|p: usize| p < k - 1),
{
    let p = before.priorities()[node as int];
    assert(before.worklist_spec().contains((k - 1) as usize));
    assert(p == k - 1);
    assert(after.worklist_spec() =~= Set::new(|q: usize| q < k - 1));
}

/// `after` is `before` after `take_next_node_from_worklist` returned `node`.
pub open spec fn took_node<T: Context>(before: Computation<T>, after: Computation<T>, node: usize) -> bool {
    let priority = before.priorities()[node as int];
    &&& before.wf()
    &&& after.wf()
    &&& after.context() == before.context()
    &&& after.priorities() == before.priorities()
    &&& after.priority_order() == before.priority_order()
    &&& node < before.graph().node_count
    &&& before.worklist_spec().contains(priority)
    &&& forall|q: usize| #[trigger] before.worklist_spec().contains(q) ==> q <= priority
    &&& after.worklist_spec() == before.worklist_spec().remove(priority)
}

/// Successive calls of `take_next_node_from_worklist` on a worklist that holds
/// the priorities below `k` give the nodes of priority `k - 1`, `k - 2`, and so
/// on: after `from_node_priority_list` with a default value, the nodes of the
/// priority list from its last to its first. After `k` calls the worklist is
/// empty, so the next call gives `None`.
pub proof fn lemma_takes_in_priority_order<T: Context>(
    states: Seq<Computation<T>>,
    nodes: Seq<usize>,
    k: usize,
)
    requires
        states.len() == nodes.len() + 1,
        states[0].wf(),
        states[0].worklist_spec() == Set::new(|p: usize| p < k),
        forall|i: int|
            #![trigger nodes[i]]
            0 <= i < nodes.len() ==> took_node(states[i], states[i + 1], nodes[i]),
    ensures
        nodes.len() <= k,
        forall|i: int| 0 <= i < nodes.len() ==> #[trigger] nodes[i] == states[0].priority_order()[k - 1 - i],
        states.last().worklist_spec() == Set::new(|p: usize| p < k - nodes.len()),
        states.last().priority_order() == states[0].priority_order(),
        states.last().wf(),
    decreases nodes.len(),
{
    let m = nodes.len();
    if m == 0 {
        assert(states[0].worklist_spec() =~= Set::new(|p: usize| p < k - 0));
    } else {
        let prefix_states = states.drop_last();
        let prefix_nodes = nodes.drop_last();
        assert forall|i: int|
            #![trigger prefix_nodes[i]]
            0 <= i < prefix_nodes.len() implies took_node(
            prefix_states[i],
            prefix_states[i + 1],
            prefix_nodes[i],
        ) by {
            assert(nodes[i] == prefix_nodes[i]);
        }
        lemma_takes_in_priority_order(prefix_states, prefix_nodes, k);
        let before = states[m - 1];
        let after = states[m as int];
        assert(took_node(before, after, nodes[m - 1]));
        assert(before == prefix_states.last());
        let rest = (k - (m - 1)) as usize;
        assert(before.worklist_spec() =~= Set::new(|p: usize| p < rest));
        lemma_take_in_priority_order(before, after, nodes[m - 1], rest);
        assert(after.worklist_spec() =~= Set::new(|p: usize| p < k - m));
        assert forall|i: int| 0 <= i < nodes.len() implies #[trigger] nodes[i]
            == states[0].priority_order()[k - 1 - i] by {
            if i < m - 1 {
                assert(prefix_nodes[i] == nodes[i]);
            }
        }
    }
}

/// Setting the value of a node gives that node the value and leaves the values
/// of all other nodes as they were: what `get_node_value` returns after
/// `set_node_value`.
pub proof fn lemma_get_after_set<T: Context>(
    before: Computation<T>,
    after: Computation<T>,
    node: usize,
    value: T::NodeValue,
)
    requires
        after.values() == before.values().insert(node, value),
    ensures
        after.values().contains_key(node),
        after.values()[node] == value,
        forall|other: usize|
            other != node ==> (#[trigger] after.values().contains_key(other)
                == before.values().contains_key(other)) && (before.values().contains_key(other)
                ==> after.values()[other] == before.values()[other]),
{
}

/// A set of indices below `n` is finite and has at most `n` elements.
proof fn lemma_bounded_set(s: Set<usize>, n: usize)
    requires
        forall|v: usize| #[trigger] s.contains(v) ==> v < n,
    ensures
        s.finite(),
        s.len() <= n,
    decreases n,
{
    if n == 0 {
        assert(s =~= Set::empty());
    } else {
        let rest = s.remove((n - 1) as usize);
        lemma_bounded_set(rest, (n - 1) as usize);
        if s.contains((n - 1) as usize) {
            assert(s =~= rest.insert((n - 1) as usize));
        } else {
            assert(s =~= rest);
        }
    }
}

/// The indices below `n` form a finite set of `n` elements.
proof fn lemma_index_range(n: usize)
    ensures
        Set::new(|v: usize| v < n).finite(),
        Set::new(|v: usize| v < n).len() == n,
    decreases n,
{
    if n == 0 {
        assert(Set::new(|v: usize| v < n) =~= Set::empty());
    } else {
        lemma_index_range((n - 1) as usize);
        assert(Set::new(|v: usize| v < n) =~= Set::new(|v: usize| v < (n - 1) as usize).insert(
            (n - 1) as usize,
        ));
    }
}

/// A sequence of `n` distinct indices below `n` holds every index below `n`.
proof fn lemma_permutation_covers(s: Seq<usize>, n: usize)
    requires
        s.len() == n,
        s.no_duplicates(),
        forall|i: int| 0 <= i < s.len() ==> s[i] < n,
    ensures
        forall|v: usize| v < n ==> s.contains(v),
{
    let range = Set::new(|v: usize| v < n);
    lemma_index_range(n);
    s.unique_seq_to_set();
    assert(s.to_set().subset_of(range));
    vstd::set_lib::lemma_subset_equality(s.to_set(), range);
    assert forall|v: usize| v < n implies s.contains(v) by {
        assert(range.contains(v));
        assert(s.to_set().contains(v));
    }
}



/// Every node whose value appeared or changed between `old_values` and
/// `new_values` has its priority in `new_worklist`.
spec fn changes_pending<V>(
    priorities: Seq<usize>,
    old_values: Map<usize, V>,
    new_values: Map<usize, V>,
    new_worklist: Set<usize>,
) -> bool {
    forall|k: usize|
        #[trigger] new_values.contains_key(k) && (!old_values.contains_key(k) || new_values[k]
            != old_values[k]) ==> new_worklist.contains(priorities[k as int])
}

/// The way one part of the worklist algorithm may change the node values and
/// the worklist: nothing leaves the worklist, no value disappears, every
/// changed node is marked as not yet stabilized, and (for a semilattice) the
/// values only grow.
spec fn step_ok<T: Context>(
    ctx: T,
    priorities: Seq<usize>,
    old_values: Map<usize, T::NodeValue>,
    old_worklist: Set<usize>,
    new_values: Map<usize, T::NodeValue>,
    new_worklist: Set<usize>,
) -> bool {
    &&& old_worklist.subset_of(new_worklist)
    &&& forall|k: usize| #[trigger] old_values.contains_key(k) ==> new_values.contains_key(k)
    &&& changes_pending(priorities, old_values, new_values, new_worklist)
    &&& merge_is_semilattice(ctx) ==> values_grow(ctx, old_values, new_values)
}

proof fn lemma_step_ok_refl<T: Context>(
    ctx: T,
    priorities: Seq<usize>,
    values: Map<usize, T::NodeValue>,
    worklist: Set<usize>,
)
    ensures
        step_ok(ctx, priorities, values, worklist, values, worklist),
{
    if merge_is_semilattice(ctx) {
        assert forall|k: usize| #[trigger] values.contains_key(k) implies ctx.merge_spec(
            values[k],
            values[k],
        ) == values[k] by {}
    }
}

proof fn lemma_step_ok_trans<T: Context>(
    ctx: T,
    priorities: Seq<usize>,
    v1: Map<usize, T::NodeValue>,
    w1: Set<usize>,
    v2: Map<usize, T::NodeValue>,
    w2: Set<usize>,
    v3: Map<usize, T::NodeValue>,
    w3: Set<usize>,
)
    requires
        step_ok(ctx, priorities, v1, w1, v2, w2),
        step_ok(ctx, priorities, v2, w2, v3, w3),
    ensures
        step_ok(ctx, priorities, v1, w1, v3, w3),
{
    assert forall|k: usize| #[trigger]
        v3.contains_key(k) && (!v1.contains_key(k) || v3[k] != v1[k]) implies w3.contains(
        priorities[k as int],
    ) by {
        if v2.contains_key(k) && !(!v1.contains_key(k) || v2[k] != v1[k]) {
            assert(v3[k] != v2[k]);
        } else if v2.contains_key(k) {
            assert(w2.contains(priorities[k as int]));
        }
    }
    if merge_is_semilattice(ctx) {
        assert forall|k: usize| #[trigger] v1.contains_key(k) implies v3.contains_key(k)
            && ctx.merge_spec(v1[k], v3[k]) == v3[k] by {
            assert(ctx.merge_spec(v1[k], ctx.merge_spec(v2[k], v3[k])) == ctx.merge_spec(
                ctx.merge_spec(v1[k], v2[k]),
                v3[k],
            ));
        }
    }
}

/// A settled edge stays settled through a step of the algorithm.
proof fn lemma_step_keeps_settled<T: Context>(
    ctx: T,
    priorities: Seq<usize>,
    old_values: Map<usize, T::NodeValue>,
    old_worklist: Set<usize>,
    new_values: Map<usize, T::NodeValue>,
    new_worklist: Set<usize>,
    others: Set<usize>,
    e: int,
)
    requires
        merge_is_semilattice(ctx),
        step_ok(ctx, priorities, old_values, old_worklist, new_values, new_worklist),
        edge_settled(ctx, priorities, old_values, old_worklist.union(others), e),
    ensures
        edge_settled(ctx, priorities, new_values, new_worklist.union(others), e),
{
    let (start, end) = ctx.graph_spec()@.edges[e];
    if new_values.contains_key(start) && !new_worklist.union(others).contains(
        priorities[start as int],
    ) {
        assert(old_values.contains_key(start) && new_values[start] == old_values[start]);
        assert(!old_worklist.union(others).contains(priorities[start as int]));
        match ctx.update_edge_spec(old_values[start], e as usize) {
            Some(u) => {
                let w = old_values[end];
                let w2 = new_values[end];
                assert(old_values.contains_key(end));
                assert(ctx.merge_spec(w, w2) == w2);
                assert(ctx.merge_spec(u, ctx.merge_spec(w, w2)) == ctx.merge_spec(
                    ctx.merge_spec(u, w),
                    w2,
                ));
            },
            None => {},
        }
    }
}

/// An edge settled with respect to some pending nodes stays settled when more
/// nodes are pending.
proof fn lemma_settled_more_pending<T: Context>(
    ctx: T,
    priorities: Seq<usize>,
    values: Map<usize, T::NodeValue>,
    pending: Set<usize>,
    more: Set<usize>,
    e: int,
)
    requires
        pending.subset_of(more),
        edge_settled(ctx, priorities, values, pending, e),
    ensures
        edge_settled(ctx, priorities, values, more, e),
{
}

/// The number of node visits left when node `i` has been visited `steps[i]`
/// times and every node may be visited `max_steps` times.
spec fn remaining_visits(steps: Seq<u64>, max_steps: u64) -> nat
    decreases steps.len(),
{
    if steps.len() == 0 {
        0
    } else {
        remaining_visits(steps.drop_last(), max_steps) + if steps.last() < max_steps {
            (max_steps - steps.last()) as nat
        } else {
            0nat
        }
    }
}

/// With no node visited yet, `node_count * max_steps` visits are left.
proof fn lemma_remaining_visits_none(n: nat, max_steps: u64)
    ensures
        remaining_visits(no_visits(n), max_steps) == n * max_steps,
    decreases n,
{
    if n > 0 {
        lemma_remaining_visits_none((n - 1) as nat, max_steps);
        assert(no_visits(n).drop_last() =~= no_visits((n - 1) as nat));
        assert(no_visits(n).last() == 0);
        assert((n - 1) * max_steps + max_steps == n * max_steps) by (nonlinear_arith);
    } else {
        assert(no_visits(n).len() == 0);
    }
}

proof fn lemma_remaining_visits_step(steps: Seq<u64>, max_steps: u64, i: int)
    requires
        0 <= i < steps.len(),
        steps[i] < max_steps,
    ensures
        remaining_visits(steps.update(i, (steps[i] + 1) as u64), max_steps) + 1 == remaining_visits(
            steps,
            max_steps,
        ),
    decreases steps.len(),
{
    let updated = steps.update(i, (steps[i] + 1) as u64);
    if i == steps.len() - 1 {
        assert(updated.drop_last() =~= steps.drop_last());
    } else {
        lemma_remaining_visits_step(steps.drop_last(), max_steps, i);
        assert(updated.drop_last() =~= steps.drop_last().update(i, (steps[i] + 1) as u64));
    }
}

/// The node values and the worklist after the value `value` reaches `node`:
/// it is merged into the node's value (or becomes it, where the node has none),
/// and a node whose value changes is marked as not yet stabilized.
pub open spec fn merge_step<T: Context>(
    ctx: T,
    priorities: Seq<usize>,
    values: Map<usize, T::NodeValue>,
    worklist: Set<usize>,
    node: usize,
    value: T::NodeValue,
) -> (Map<usize, T::NodeValue>, Set<usize>) {
    if values.contains_key(node) {
        let merged = ctx.merge_spec(value, values[node]);
        if merged == values[node] {
            (values, worklist)
        } else {
            (values.insert(node, merged), worklist.insert(priorities[node as int]))
        }
    } else {
        (values.insert(node, value), worklist.insert(priorities[node as int]))
    }
}

/// The node values and the worklist after edge `e` is updated: the value that
/// flows from its start node (if that has a value) reaches its end node.
pub open spec fn edge_step<T: Context>(
    ctx: T,
    priorities: Seq<usize>,
    values: Map<usize, T::NodeValue>,
    worklist: Set<usize>,
    e: usize,
) -> (Map<usize, T::NodeValue>, Set<usize>) {
    let (start, end) = ctx.graph_spec()@.edges[e as int];
    if values.contains_key(start) {
        match ctx.update_edge_spec(values[start], e) {
            Some(u) => merge_step(ctx, priorities, values, worklist, end, u),
            None => (values, worklist),
        }
    } else {
        (values, worklist)
    }
}

/// The node values and the worklist after the edges `edges` are updated in
/// their order.
pub open spec fn edges_step<T: Context>(
    ctx: T,
    priorities: Seq<usize>,
    values: Map<usize, T::NodeValue>,
    worklist: Set<usize>,
    edges: Seq<usize>,
) -> (Map<usize, T::NodeValue>, Set<usize>)
    decreases edges.len(),
{
    if edges.len() == 0 {
        (values, worklist)
    } else {
        let before = edges_step(ctx, priorities, values, worklist, edges.drop_last());
        edge_step(ctx, priorities, before.0, before.1, edges.last())
    }
}

/// The node values and the worklist after all edges leaving `node` are
/// updated, most recently added first.
pub open spec fn node_step<T: Context>(
    ctx: T,
    priorities: Seq<usize>,
    values: Map<usize, T::NodeValue>,
    worklist: Set<usize>,
    node: usize,
) -> (Map<usize, T::NodeValue>, Set<usize>) {
    edges_step(
        ctx,
        priorities,
        values,
        worklist,
        outgoing_edges_spec(ctx.graph_spec()@.edges, node),
    )
}

/// The end nodes of the edges that leave `node`.
pub open spec fn edge_targets(edges: Seq<(usize, usize)>, node: usize) -> Set<usize> {
    Set::new(|k: usize| exists|e: int| 0 <= e < edges.len() && edges[e].0 == node && edges[e].1 == k)
}

/// The priorities of the nodes `nodes`.
pub open spec fn priorities_of(priorities: Seq<usize>, nodes: Set<usize>) -> Set<usize> {
    Set::new(|p: usize| exists|k: usize| nodes.contains(k) && priorities[k as int] == p)
}

/// The greatest element of a finite, non-empty set.
pub open spec fn greatest(s: Set<usize>) -> usize {
    choose|p: usize| s.contains(p) && forall|q: usize| #[trigger] s.contains(q) ==> q <= p
}

proof fn lemma_greatest(s: Set<usize>, p: usize)
    requires
        s.contains(p),
        forall|q: usize| #[trigger] s.contains(q) ==> q <= p,
    ensures
        greatest(s) == p,
{
    let g = greatest(s);
    assert(s.contains(g) && forall|q: usize| #[trigger] s.contains(q) ==> q <= g);
    assert(g <= p && p <= g);
}

/// The node values and the worklist after at most `fuel` rounds of the
/// worklist algorithm, stopping early when the worklist is empty. A round
/// takes the node of highest priority off the worklist and updates its
/// outgoing edges; `order[p]` is the node of priority `p`.
pub open spec fn compute_run<T: Context>(
    ctx: T,
    priorities: Seq<usize>,
    order: Seq<usize>,
    values: Map<usize, T::NodeValue>,
    worklist: Set<usize>,
    fuel: nat,
) -> (Map<usize, T::NodeValue>, Set<usize>)
    decreases fuel,
{
    if fuel == 0 || worklist.is_empty() {
        (values, worklist)
    } else {
        let p = greatest(worklist);
        let next = node_step(ctx, priorities, values, worklist.remove(p), order[p as int]);
        compute_run(ctx, priorities, order, next.0, next.1, (fuel - 1) as nat)
    }
}

/// No node has been visited yet: `n` visit counts of zero.
pub open spec fn no_visits(n: nat) -> Seq<u64> {
    Seq::new(n, |i: int| 0u64)
}

/// The worklist algorithm in which node `n` may still be visited while
/// `visits[n] < max_steps`: a round takes the node of highest priority off the
/// worklist and updates its outgoing edges if it may still be visited, and
/// else sets its priority aside in `exhausted`. Once the worklist is empty the
/// result is the node values and the priorities set aside; `None` when that
/// takes more than `fuel` rounds.
pub open spec fn bounded_run<T: Context>(
    ctx: T,
    priorities: Seq<usize>,
    order: Seq<usize>,
    values: Map<usize, T::NodeValue>,
    worklist: Set<usize>,
    visits: Seq<u64>,
    exhausted: Set<usize>,
    max_steps: u64,
    fuel: nat,
) -> Option<(Map<usize, T::NodeValue>, Set<usize>)>
    decreases fuel,
{
    if worklist.is_empty() {
        Some((values, exhausted))
    } else if fuel == 0 {
        None
    } else {
        let p = greatest(worklist);
        let node = order[p as int];
        if visits[node as int] < max_steps {
            let next = node_step(ctx, priorities, values, worklist.remove(p), node);
            bounded_run(
                ctx,
                priorities,
                order,
                next.0,
                next.1,
                visits.update(node as int, (visits[node as int] + 1) as u64),
                exhausted,
                max_steps,
                (fuel - 1) as nat,
            )
        } else {
            bounded_run(
                ctx,
                priorities,
                order,
                values,
                worklist.remove(p),
                visits,
                exhausted.insert(p),
                max_steps,
                (fuel - 1) as nat,
            )
        }
    }
}

/// One round of the bounded worklist algorithm: where the run from the start
/// reaches the state (`values`, `worklist`, `visits`, `exhausted`) after
/// `rounds` rounds, it reaches the state after the next round one round later.
proof fn lemma_bounded_run_round<T: Context>(
    ctx: T,
    priorities: Seq<usize>,
    order: Seq<usize>,
    start_values: Map<usize, T::NodeValue>,
    start_worklist: Set<usize>,
    start_visits: Seq<u64>,
    max_steps: u64,
    rounds: nat,
    values: Map<usize, T::NodeValue>,
    worklist: Set<usize>,
    visits: Seq<u64>,
    exhausted: Set<usize>,
    p: usize,
    next_values: Map<usize, T::NodeValue>,
    next_worklist: Set<usize>,
    next_visits: Seq<u64>,
    next_exhausted: Set<usize>,
)
    requires
        obeys_concrete_eq::<T::NodeValue>() ==> forall|f: nat|
            bounded_run(
                ctx,
                priorities,
                order,
                start_values,
                start_worklist,
                start_visits,
                Set::empty(),
                max_steps,
                f + rounds,
            ) == #[trigger] bounded_run(
                ctx,
                priorities,
                order,
                values,
                worklist,
                visits,
                exhausted,
                max_steps,
                f,
            ),
        worklist.contains(p),
        forall|q: usize| #[trigger] worklist.contains(q) ==> q <= p,
        ({
            let node = order[p as int];
            if visits[node as int] < max_steps {
                &&& obeys_concrete_eq::<T::NodeValue>() ==> {
                    let next = node_step(ctx, priorities, values, worklist.remove(p), node);
                    next_values == next.0 && next_worklist == next.1
                }
                &&& next_visits == visits.update(node as int, (visits[node as int] + 1) as u64)
                &&& next_exhausted == exhausted
            } else {
                &&& next_values == values
                &&& next_worklist == worklist.remove(p)
                &&& next_visits == visits
                &&& next_exhausted == exhausted.insert(p)
            }
        }),
    ensures
        obeys_concrete_eq::<T::NodeValue>() ==> forall|f: nat|
            bounded_run(
                ctx,
                priorities,
                order,
                start_values,
                start_worklist,
                start_visits,
                Set::empty(),
                max_steps,
                f + (rounds + 1),
            ) == #[trigger] bounded_run(
                ctx,
                priorities,
                order,
                next_values,
                next_worklist,
                next_visits,
                next_exhausted,
                max_steps,
                f,
            ),
{
    lemma_greatest(worklist, p);
    assert(!worklist.is_empty()) by {
        assert(!(worklist =~= Set::empty()) || !worklist.contains(p));
    }
    if obeys_concrete_eq::<T::NodeValue>() {
        assert forall|f: nat|
            bounded_run(
                ctx,
                priorities,
                order,
                start_values,
                start_worklist,
                start_visits,
                Set::empty(),
                max_steps,
                f + (rounds + 1),
            ) == #[trigger] bounded_run(
                ctx,
                priorities,
                order,
                next_values,
                next_worklist,
                next_visits,
                next_exhausted,
                max_steps,
                f,
            ) by {
            assert(f + (rounds + 1) == (f + 1) + rounds);
            assert(bounded_run(
                ctx,
                priorities,
                order,
                start_values,
                start_worklist,
                start_visits,
                Set::empty(),
                max_steps,
                (f + 1) + rounds,
            ) == bounded_run(
                ctx,
                priorities,
                order,
                values,
                worklist,
                visits,
                exhausted,
                max_steps,
                (f + 1) as nat,
            ));
            assert(bounded_run(
                ctx,
                priorities,
                order,
                values,
                worklist,
                visits,
                exhausted,
                max_steps,
                (f + 1) as nat,
            ) == bounded_run(
                ctx,
                priorities,
                order,
                next_values,
                next_worklist,
                next_visits,
                next_exhausted,
                max_steps,
                f,
            ));
        }
    }
}

/// The priorities set aside by the bounded worklist algorithm only ever grow.
proof fn lemma_bounded_run_keeps_exhausted<T: Context>(
    ctx: T,
    priorities: Seq<usize>,
    order: Seq<usize>,
    values: Map<usize, T::NodeValue>,
    worklist: Set<usize>,
    visits: Seq<u64>,
    exhausted: Set<usize>,
    max_steps: u64,
    fuel: nat,
)
    ensures
        bounded_run(ctx, priorities, order, values, worklist, visits, exhausted, max_steps, fuel)
            matches Some(result) ==> exhausted.subset_of(result.1),
    decreases fuel,
{
    if !worklist.is_empty() && fuel > 0 {
        let p = greatest(worklist);
        let node = order[p as int];
        if visits[node as int] < max_steps {
            let next = node_step(ctx, priorities, values, worklist.remove(p), node);
            lemma_bounded_run_keeps_exhausted(
                ctx,
                priorities,
                order,
                next.0,
                next.1,
                visits.update(node as int, (visits[node as int] + 1) as u64),
                exhausted,
                max_steps,
                (fuel - 1) as nat,
            );
        } else {
            lemma_bounded_run_keeps_exhausted(
                ctx,
                priorities,
                order,
                values,
                worklist.remove(p),
                visits,
                exhausted.insert(p),
                max_steps,
                (fuel - 1) as nat,
            );
        }
    }
}

/// A bounded run that ends with no node set aside (the computation has
/// stabilized) is the unbounded run: the unbounded algorithm, given at least as
/// many rounds, ends with the same node values and an empty worklist.
pub proof fn lemma_stabilized_bounded_run_is_unbounded<T: Context>(
    ctx: T,
    priorities: Seq<usize>,
    order: Seq<usize>,
    values: Map<usize, T::NodeValue>,
    worklist: Set<usize>,
    visits: Seq<u64>,
    max_steps: u64,
    fuel: nat,
    more_fuel: nat,
)
    requires
        bounded_run(ctx, priorities, order, values, worklist, visits, Set::empty(), max_steps, fuel)
            matches Some(result) && result.1.is_empty(),
        fuel <= more_fuel,
    ensures
        ({
            let result = bounded_run(
                ctx,
                priorities,
                order,
                values,
                worklist,
                visits,
                Set::empty(),
                max_steps,
                fuel,
            )->Some_0;
            compute_run(ctx, priorities, order, values, worklist, more_fuel) == result
        }),
    decreases fuel,
{
    if worklist.is_empty() {
    } else {
        let p = greatest(worklist);
        let node = order[p as int];
        if visits[node as int] < max_steps {
            let next = node_step(ctx, priorities, values, worklist.remove(p), node);
            lemma_stabilized_bounded_run_is_unbounded(
                ctx,
                priorities,
                order,
                next.0,
                next.1,
                visits.update(node as int, (visits[node as int] + 1) as u64),
                max_steps,
                (fuel - 1) as nat,
                (more_fuel - 1) as nat,
            );
        } else {
            lemma_bounded_run_keeps_exhausted(
                ctx,
                priorities,
                order,
                values,
                worklist.remove(p),
                visits,
                Set::empty().insert(p),
                max_steps,
                (fuel - 1) as nat,
            );
            let result = bounded_run(
                ctx,
                priorities,
                order,
                values,
                worklist,
                visits,
                Set::empty(),
                max_steps,
                fuel,
            )->Some_0;
            assert(result.1.contains(p));
        }
    }
}

/// Where `compute_with_max_steps` stabilizes (its result is a bounded run
/// that sets nothing aside, within `node_count * max_steps` rounds, which fits
/// `compute`'s budget of `u64::MAX` rounds), `compute` from the same start ends
/// with the same node values and an empty worklist.
pub proof fn lemma_stabilized_bounded_is_compute<T: Context>(
    ctx: T,
    priorities: Seq<usize>,
    order: Seq<usize>,
    values: Map<usize, T::NodeValue>,
    worklist: Set<usize>,
    node_count: nat,
    max_steps: u64,
    final_values: Map<usize, T::NodeValue>,
)
    requires
        exists|fuel: nat|
            #[trigger] bounded_run(
                ctx,
                priorities,
                order,
                values,
                worklist,
                no_visits(node_count),
                Set::empty(),
                max_steps,
                fuel,
            ) == Some((final_values, Set::<usize>::empty())) && fuel <= node_count * max_steps,
        node_count * max_steps <= u64::MAX,
    ensures
        compute_run(ctx, priorities, order, values, worklist, u64::MAX as nat) == (
            final_values,
            Set::<usize>::empty(),
        ),
{
    let fuel = choose|fuel: nat|
        #[trigger] bounded_run(
            ctx,
            priorities,
            order,
            values,
            worklist,
            no_visits(node_count),
            Set::empty(),
            max_steps,
            fuel,
        ) == Some((final_values, Set::<usize>::empty())) && fuel <= node_count * max_steps;
    assert(Set::<usize>::empty().is_empty());
    lemma_stabilized_bounded_run_is_unbounded(
        ctx,
        priorities,
        order,
        values,
        worklist,
        no_visits(node_count),
        max_steps,
        fuel,
        u64::MAX as nat,
    );
}

/// `BTreeSet::pop_last`: removes and returns the greatest element, or returns
/// `None` and leaves the set as it is when it is empty.
#[verifier::external_body]
fn pop_greatest(set: &mut BTreeSet<usize>) -> (r: Option<usize>)
    ensures
        match r {
            Some(p) => {
                &&& old(set)@.contains(p)
                &&& forall|q: usize| #[trigger] old(set)@.contains(q) ==> q <= p
                &&& final(set)@ == old(set)@.remove(p)
            },
            None => old(set)@.is_empty() && final(set)@ == old(set)@,
        },
{
    set.pop_last()
}

impl<T: Context> Computation<T> {
    /// Create a new fixpoint computation from a fixpoint problem, the
    /// corresponding graph and a default value for all nodes if one should
    /// exist. The nodes get their priorities from the order in which Kosaraju's
    /// algorithm lists the strongly connected components of the graph (a weak
    /// topological order): nodes listed later are stabilized first, so an edge
    /// between two components leads from a node of higher priority to one of
    /// lower priority.
    pub fn new(fp_context: T, default_value: Option<T::NodeValue>) -> (computation: Self)
        ensures
            computation.wf(),
            computation.context() == fp_context,
            computation.priority_order() == fp_context.graph_spec().scc_components_spec().flatten(),
            scc_decomposition(
                computation.graph().node_count,
                computation.graph().edges,
                fp_context.graph_spec().scc_components_spec(),
            ),
            match default_value {
                None => {
                    &&& computation.worklist_spec() == Set::<usize>::empty()
                    &&& computation.values() == Map::<usize, T::NodeValue>::empty()
                },
                Some(default) => {
                    &&& computation.worklist_spec() == Set::new(
                        |p: usize| p < computation.graph().node_count,
                    )
                    &&& computation.values().dom() == Set::new(
                        |v: usize| v < computation.graph().node_count,
                    )
                    &&& forall|v: usize|
                        v < computation.graph().node_count ==> cloned(
                            default,
                            #[trigger] computation.values()[v],
                        )
                },
            },
            computation.is_settled(),
            computation.all_values_pending(),
            forall|e: int|
                0 <= e < computation.graph().edges.len() ==> same_component(
                    fp_context.graph_spec().scc_components_spec(),
                    #[trigger] computation.graph().edges[e].0,
                    computation.graph().edges[e].1,
                ) || computation.priorities()[computation.graph().edges[e].1 as int]
                    < computation.priorities()[computation.graph().edges[e].0 as int],
    {
        let priority_sorted_nodes = fp_context.get_graph().scc_order();
        let computation = Self::from_node_priority_list(
            fp_context,
            default_value,
            priority_sorted_nodes,
        );
        proof {
            let graph = computation.graph();
            let comps = computation.context().graph_spec().scc_components_spec();
            assert forall|e: int| 0 <= e < graph.edges.len() implies same_component(
                comps,
                #[trigger] graph.edges[e].0,
                graph.edges[e].1,
            ) || computation.priorities()[graph.edges[e].1 as int]
                < computation.priorities()[graph.edges[e].0 as int] by {
                let (s, t) = graph.edges[e];
                let ps = computation.priorities()[s as int];
                let pt = computation.priorities()[t as int];
                lemma_scc_order_edge(graph.node_count, graph.edges, comps, e, ps as int, pt as int);
            }
        }
        computation
    }

    /// Create a new fixpoint computation from a fixpoint problem, an optional
    /// default value and the list of nodes of the graph ordered by the priority
    /// for the worklist algorithm. The worklist algorithm will try to stabilize
    /// the nodes with a higher index in the `priority_sorted_nodes` array before
    /// those with a lower index. With a default value every node gets a clone
    /// of it and is marked as not yet stabilized.
    pub fn from_node_priority_list(
        fp_context: T,
        default_value: Option<T::NodeValue>,
        priority_sorted_nodes: Vec<usize>,
    ) -> (computation: Self)
        requires
            priority_sorted_nodes@.len() == fp_context.graph_spec()@.node_count,
            priority_sorted_nodes@.no_duplicates(),
            forall|i: int|
                0 <= i < priority_sorted_nodes@.len() ==> priority_sorted_nodes@[i]
                    < fp_context.graph_spec()@.node_count,
        ensures
            computation.wf(),
            computation.context() == fp_context,
            computation.priority_order() == priority_sorted_nodes@,
            match default_value {
                None => {
                    &&& computation.worklist_spec() == Set::<usize>::empty()
                    &&& computation.values() == Map::<usize, T::NodeValue>::empty()
                },
                Some(default) => {
                    &&& computation.worklist_spec() == Set::new(
                        |p: usize| p < priority_sorted_nodes@.len(),
                    )
                    &&& computation.values().dom() == Set::new(
                        |v: usize| v < priority_sorted_nodes@.len(),
                    )
                    &&& forall|v: usize|
                        v < priority_sorted_nodes@.len() ==> cloned(
                            default,
                            #[trigger] computation.values()[v],
                        )
                },
            },
            computation.is_settled(),
            computation.all_values_pending(),
    {
        let node_count = fp_context.get_graph().node_count();
        let ghost n = node_count;
        // invert the order: node_priority_list[node] is the position of node
        let mut node_priority_list: Vec<usize> = Vec::new();
        while node_priority_list.len() < node_count
            invariant
                node_priority_list@.len() <= node_count,
                forall|v: int| 0 <= v < node_priority_list@.len() ==> node_priority_list@[v] == 0,
            decreases node_count - node_priority_list@.len(),
        {
            node_priority_list.push(0);
        }
        let len = priority_sorted_nodes.len();
        for i in 0..len
            invariant
                len == priority_sorted_nodes@.len(),
                len == n,
                priority_sorted_nodes@.no_duplicates(),
                forall|j: int| 0 <= j < len ==> priority_sorted_nodes@[j] < n,
                node_priority_list@.len() == n,
                forall|j: int|
                    0 <= j < i ==> node_priority_list@[priority_sorted_nodes@[j] as int] == j,
                forall|v: int| 0 <= v < n ==> node_priority_list@[v] < n,
        {
            let node = priority_sorted_nodes[i];
            node_priority_list.set(node, i);
            assert forall|j: int| 0 <= j < i + 1 implies node_priority_list@[priority_sorted_nodes@[j] as int] == j by {
                if j < i {
                    assert(priority_sorted_nodes@[j] != priority_sorted_nodes@[i as int]);
                }
            }
        }
        proof {
            lemma_permutation_covers(priority_sorted_nodes@, node_count);
            assert forall|v: int| 0 <= v < n implies priority_sorted_nodes@[node_priority_list@[v] as int] == v by {
                assert(priority_sorted_nodes@.contains(v as usize));
                let j = choose|j: int| 0 <= j < len && priority_sorted_nodes@[j] == v as usize;
                assert(node_priority_list@[v] == j);
            }
        }
        let mut worklist: BTreeSet<usize> = BTreeSet::new();
        let mut node_values: BTreeMap<usize, T::NodeValue> = BTreeMap::new();
        if let Some(default) = &default_value {
            for i in 0..len
                invariant
                    len == n,
                    worklist@ == Set::new(|p: usize| p < i),
                    node_values@.dom() == Set::new(|v: usize| v < i),
                    forall|v: usize| v < i ==> cloned(*default, #[trigger] node_values@[v]),
            {
                worklist.insert(i);
                let value = default.clone();
                proof {
                    assert(cloned(*default, value));
                }
                node_values.insert(i, value);
                assert(worklist@ =~= Set::new(|p: usize| p < i + 1));
                assert(node_values@.dom() =~= Set::new(|v: usize| v < i + 1));
            }
        }
        let computation = Computation {
            fp_context,
            node_priority_list,
            priority_to_node_list: priority_sorted_nodes,
            worklist,
            node_values,
        };
        assert(computation.is_settled()) by {
            assert forall|e: int|
                0 <= e < computation.graph().edges.len() implies #[trigger] edge_settled(
                computation.context(),
                computation.priorities(),
                computation.values(),
                computation.worklist_spec(),
                e,
            ) by {
                let (start, end) = computation.graph().edges[e];
                assert(start < n);
            }
        }
        computation
    }
}


impl<T: Context> Computation<T> {
    /// Get the value of a node.
    pub fn get_node_value(&self, node: usize) -> (r: Option<&T::NodeValue>)
        ensures
            match r {
                Some(value) => self.values().contains_key(node) && *value == self.values()[node],
                None => !self.values().contains_key(node),
            },
    {
        self.node_values.get(&node)
    }

    /// Set the value of a node and mark the node as not yet stabilized.
    /// Edges that leave `node` are settled, as it is pending; an edge that
    /// ends elsewhere than at `node`, or whose start node is pending, stays
    /// settled.
    pub fn set_node_value(&mut self, node: usize, value: T::NodeValue)
        requires
            old(self).wf(),
            node < old(self).graph().node_count,
        ensures
            final(self).wf(),
            final(self).context() == old(self).context(),
            final(self).priorities() == old(self).priorities(),
            final(self).priority_order() == old(self).priority_order(),
            final(self).values() == old(self).values().insert(node, value),
            final(self).worklist_spec() == old(self).worklist_spec().insert(
                old(self).priorities()[node as int],
            ),
            forall|e: int|
                0 <= e < old(self).graph().edges.len() && (old(self).graph().edges[e].1 != node
                    || old(self).worklist_spec().contains(
                    old(self).priorities()[old(self).graph().edges[e].0 as int],
                )) && edge_settled(
                    old(self).context(),
                    old(self).priorities(),
                    old(self).values(),
                    old(self).worklist_spec(),
                    e,
                ) ==> #[trigger] edge_settled(
                    final(self).context(),
                    final(self).priorities(),
                    final(self).values(),
                    final(self).worklist_spec(),
                    e,
                ),
            forall|e: int|
                0 <= e < old(self).graph().edges.len() && old(self).graph().edges[e].0 == node
                    ==> #[trigger] edge_settled(
                    final(self).context(),
                    final(self).priorities(),
                    final(self).values(),
                    final(self).worklist_spec(),
                    e,
                ),
            old(self).all_values_pending() ==> final(self).all_values_pending(),
    {
        self.node_values.insert(node, value);
        let priority = self.node_priority_list[node];
        self.worklist.insert(priority);
        assert forall|p: usize| #[trigger] self.worklist_spec().contains(p) implies p
            < self.graph().node_count by {
            if p != priority {
                assert(old(self).worklist_spec().contains(p));
            }
        }
        assert forall|v: usize| #[trigger] self.values().contains_key(v) implies v
            < self.graph().node_count by {
            if v != node {
                assert(old(self).values().contains_key(v));
            }
        }
    }

    /// Merge the value at a node with some new value. When the merged value
    /// differs from the old one (or the node had no value), it becomes the
    /// node's value and the node is marked as not yet stabilized.
    fn merge_node_value(&mut self, node: usize, value: T::NodeValue)
        requires
            old(self).wf(),
            node < old(self).graph().node_count,
        ensures
            final(self).wf(),
            final(self).context() == old(self).context(),
            final(self).priorities() == old(self).priorities(),
            final(self).priority_order() == old(self).priority_order(),
            step_ok(
                old(self).context(),
                old(self).priorities(),
                old(self).values(),
                old(self).worklist_spec(),
                final(self).values(),
                final(self).worklist_spec(),
            ),
            ({
                let merged = if old(self).values().contains_key(node) {
                    old(self).context().merge_spec(value, old(self).values()[node])
                } else {
                    value
                };
                ||| final(self).values() == old(self).values().insert(node, merged)
                    && final(self).worklist_spec() == old(self).worklist_spec().insert(
                    old(self).priorities()[node as int],
                )
                ||| old(self).values().contains_key(node) && final(self).values() == old(
                    self,
                ).values() && final(self).worklist_spec() == old(self).worklist_spec() && (
                obeys_concrete_eq::<T::NodeValue>() ==> merged == old(self).values()[node])
            }),
            obeys_concrete_eq::<T::NodeValue>() ==> {
                let next = merge_step(
                    old(self).context(),
                    old(self).priorities(),
                    old(self).values(),
                    old(self).worklist_spec(),
                    node,
                    value,
                );
                final(self).values() == next.0 && final(self).worklist_spec() == next.1
            },
    {
        proof {
            reveal(obeys_concrete_eq);
        }
        match self.node_values.get(&node) {
            Some(old_value) => {
                let merged_value = self.fp_context.merge(&value, old_value);
                if merged_value != *old_value {
                    self.set_node_value(node, merged_value);
                    proof {
                        if merge_is_semilattice(old(self).context()) {
                            let ctx = old(self).context();
                            let w = old(self).values()[node];
                            assert(ctx.merge_spec(w, ctx.merge_spec(value, w)) == ctx.merge_spec(
                                ctx.merge_spec(w, value),
                                w,
                            ));
                            assert(ctx.merge_spec(ctx.merge_spec(value, w), w) == ctx.merge_spec(
                                value,
                                ctx.merge_spec(w, w),
                            ));
                            assert(values_grow(ctx, old(self).values(), self.values()));
                        }
                    }
                } else {
                    proof {
                        lemma_step_ok_refl(
                            self.context(),
                            self.priorities(),
                            self.values(),
                            self.worklist_spec(),
                        );
                    }
                }
            },
            None => {
                self.set_node_value(node, value);
            },
        }
    }

    /// Compute and update the value at the end node of an edge.
    fn update_edge(&mut self, edge: usize)
        requires
            old(self).wf(),
            edge < old(self).graph().edges.len(),
        ensures
            final(self).wf(),
            final(self).context() == old(self).context(),
            final(self).priorities() == old(self).priorities(),
            final(self).priority_order() == old(self).priority_order(),
            step_ok(
                old(self).context(),
                old(self).priorities(),
                old(self).values(),
                old(self).worklist_spec(),
                final(self).values(),
                final(self).worklist_spec(),
            ),
            merge_is_semilattice(old(self).context()) && obeys_concrete_eq::<T::NodeValue>()
                ==> edge_settled(
                final(self).context(),
                final(self).priorities(),
                final(self).values(),
                final(self).worklist_spec(),
                edge as int,
            ),
            obeys_concrete_eq::<T::NodeValue>() ==> {
                let next = edge_step(
                    old(self).context(),
                    old(self).priorities(),
                    old(self).values(),
                    old(self).worklist_spec(),
                    edge,
                );
                final(self).values() == next.0 && final(self).worklist_spec() == next.1
            },
            ({
                let (start, end) = old(self).graph().edges[edge as int];
                &&& !old(self).values().contains_key(start) || old(self).context().update_edge_spec(
                    old(self).values()[start],
                    edge,
                ) is None ==> final(self).values() == old(self).values()
                    && final(self).worklist_spec() == old(self).worklist_spec()
                &&& final(self).values().remove(end) == old(self).values().remove(end)
                &&& final(self).worklist_spec().subset_of(
                    old(self).worklist_spec().insert(old(self).priorities()[end as int]),
                )
            }),
    {
        let ghost ctx = self.context();
        let (start_node, end_node) = match self.fp_context.get_graph().edge_endpoints(edge) {
            Some(endpoints) => endpoints,
            None => {
                assert(false);
                return ;
            },
        };
        match self.node_values.get(&start_node) {
            Some(start_val) => {
                let ghost v = *start_val;
                match self.fp_context.update_edge(start_val, edge) {
                    Some(new_end_val) => {
                        let ghost before = self.values();
                        self.merge_node_value(end_node, new_end_val);
                        proof {
                            if merge_is_semilattice(ctx) && obeys_concrete_eq::<T::NodeValue>()
                                && end_node != start_node {
                                let u = new_end_val;
                                if before.contains_key(end_node) {
                                    let w = before[end_node];
                                    assert(ctx.merge_spec(u, ctx.merge_spec(u, w)) == ctx.merge_spec(
                                        ctx.merge_spec(u, u),
                                        w,
                                    ));
                                }
                                assert(self.values()[start_node] == v);
                            }
                        }
                    },
                    None => {
                        proof {
                            lemma_step_ok_refl(
                                self.context(),
                                self.priorities(),
                                self.values(),
                                self.worklist_spec(),
                            );
                        }
                    },
                }
            },
            None => {
                proof {
                    lemma_step_ok_refl(
                        self.context(),
                        self.priorities(),
                        self.values(),
                        self.worklist_spec(),
                    );
                }
            },
        }
    }

    /// Update all outgoing edges of a node.
    fn update_node(&mut self, node: usize)
        requires
            old(self).wf(),
            node < old(self).graph().node_count,
        ensures
            final(self).wf(),
            final(self).context() == old(self).context(),
            final(self).priorities() == old(self).priorities(),
            final(self).priority_order() == old(self).priority_order(),
            step_ok(
                old(self).context(),
                old(self).priorities(),
                old(self).values(),
                old(self).worklist_spec(),
                final(self).values(),
                final(self).worklist_spec(),
            ),
            merge_is_semilattice(old(self).context()) && obeys_concrete_eq::<T::NodeValue>()
                ==> forall|e: int|
                0 <= e < old(self).graph().edges.len() && old(self).graph().edges[e].0 == node
                    ==> #[trigger] edge_settled(
                    final(self).context(),
                    final(self).priorities(),
                    final(self).values(),
                    final(self).worklist_spec(),
                    e,
                ),
            obeys_concrete_eq::<T::NodeValue>() ==> {
                let next = node_step(
                    old(self).context(),
                    old(self).priorities(),
                    old(self).values(),
                    old(self).worklist_spec(),
                    node,
                );
                final(self).values() == next.0 && final(self).worklist_spec() == next.1
            },
            !old(self).values().contains_key(node) ==> final(self).values() == old(self).values()
                && final(self).worklist_spec() == old(self).worklist_spec(),
            ({
                let targets = edge_targets(old(self).graph().edges, node);
                &&& final(self).values().remove_keys(targets) == old(self).values().remove_keys(targets)
                &&& final(self).worklist_spec().subset_of(
                    old(self).worklist_spec().union(priorities_of(old(self).priorities(), targets)),
                )
            }),
    {
        let edges: Vec<usize> = self.fp_context.get_graph().edges(node);
        let ghost ctx = self.context();
        let ghost prio = self.priorities();
        let ghost graph = self.graph();
        proof {
            lemma_outgoing_edges(graph.edges, node);
            lemma_step_ok_refl(ctx, prio, self.values(), self.worklist_spec());
        }
        let ghost start_values = self.values();
        let ghost start_worklist = self.worklist_spec();
        for i in 0..edges.len()
            invariant
                self.wf(),
                self.context() == ctx,
                self.priorities() == prio,
                self.priority_order() == old(self).priority_order(),
                graph == self.graph(),
                ctx == old(self).context(),
                prio == old(self).priorities(),
                start_values == old(self).values(),
                start_worklist == old(self).worklist_spec(),
                edges@ == outgoing_edges_spec(graph.edges, node),
                forall|k: int|
                    0 <= k < edges@.len() ==> #[trigger] edges@[k] < graph.edges.len()
                        && graph.edges[edges@[k] as int].0 == node,
                step_ok(ctx, prio, start_values, start_worklist, self.values(), self.worklist_spec()),
                merge_is_semilattice(ctx) && obeys_concrete_eq::<T::NodeValue>() ==> forall|k: int|
                    0 <= k < i ==> #[trigger] edge_settled(
                        ctx,
                        prio,
                        self.values(),
                        self.worklist_spec(),
                        edges@[k] as int,
                    ),
                obeys_concrete_eq::<T::NodeValue>() ==> {
                    let next = edges_step(ctx, prio, start_values, start_worklist, edges@.take(i as int));
                    self.values() == next.0 && self.worklist_spec() == next.1
                },
                !start_values.contains_key(node) ==> self.values() == start_values
                    && self.worklist_spec() == start_worklist,
                self.values().remove_keys(edge_targets(graph.edges, node)) == start_values.remove_keys(
                    edge_targets(graph.edges, node),
                ),
                self.worklist_spec().subset_of(
                    start_worklist.union(priorities_of(prio, edge_targets(graph.edges, node))),
                ),
        {
            proof {
                assert(edges@.take(i + 1).drop_last() =~= edges@.take(i as int));
                assert(edges@.take(i + 1).last() == edges@[i as int]);
            }
            let ghost before_values = self.values();
            let ghost before_worklist = self.worklist_spec();
            self.update_edge(edges[i]);
            proof {
                let targets = edge_targets(graph.edges, node);
                let e = edges@[i as int];
                let end = graph.edges[e as int].1;
                assert(graph.edges[e as int].0 == node);
                assert(targets.contains(end));
                assert(self.values().remove_keys(targets) =~= before_values.remove_keys(targets)) by {
                    assert(self.values().remove(end).remove_keys(targets) =~= self.values().remove_keys(
                        targets,
                    ));
                    assert(before_values.remove(end).remove_keys(targets) =~= before_values.remove_keys(
                        targets,
                    ));
                }
                assert(priorities_of(prio, targets).contains(prio[end as int]));
                lemma_step_ok_trans(
                    ctx,
                    prio,
                    start_values,
                    start_worklist,
                    before_values,
                    before_worklist,
                    self.values(),
                    self.worklist_spec(),
                );
                if merge_is_semilattice(ctx) && obeys_concrete_eq::<T::NodeValue>() {
                    assert forall|k: int| 0 <= k < i + 1 implies #[trigger] edge_settled(
                        ctx,
                        prio,
                        self.values(),
                        self.worklist_spec(),
                        edges@[k] as int,
                    ) by {
                        if k < i {
                            assert(before_worklist.union(Set::empty()) =~= before_worklist);
                            assert(self.worklist_spec().union(Set::empty()) =~= self.worklist_spec());
                            lemma_step_keeps_settled(
                                ctx,
                                prio,
                                before_values,
                                before_worklist,
                                self.values(),
                                self.worklist_spec(),
                                Set::empty(),
                                edges@[k] as int,
                            );
                        }
                    }
                }
            }
        }
        proof {
            assert(edges@.take(edges@.len() as int) =~= edges@);
            if merge_is_semilattice(ctx) && obeys_concrete_eq::<T::NodeValue>() {
                assert forall|e: int|
                    0 <= e < graph.edges.len() && graph.edges[e].0 == node implies #[trigger] edge_settled(
                    ctx,
                    prio,
                    self.values(),
                    self.worklist_spec(),
                    e,
                ) by {
                    assert(edges@.contains(e as usize));
                    let k = choose|k: int| 0 <= k < edges@.len() && edges@[k] == e as usize;
                    assert(edges@[k] as int == e);
                }
            }
        }
    }

    /// Remove the highest priority node from the internal worklist and return it.
    pub fn take_next_node_from_worklist(&mut self) -> (r: Option<usize>)
        requires
            old(self).wf(),
        ensures
            final(self).wf(),
            final(self).context() == old(self).context(),
            final(self).priorities() == old(self).priorities(),
            final(self).priority_order() == old(self).priority_order(),
            final(self).values() == old(self).values(),
            match r {
                Some(node) => {
                    let priority = old(self).priorities()[node as int];
                    &&& node < old(self).graph().node_count
                    &&& old(self).worklist_spec().contains(priority)
                    &&& forall|q: usize| #[trigger]
                        old(self).worklist_spec().contains(q) ==> q <= priority
                    &&& final(self).worklist_spec() == old(self).worklist_spec().remove(priority)
                },
                None => {
                    &&& old(self).worklist_spec().is_empty()
                    &&& final(self).worklist_spec() == old(self).worklist_spec()
                },
            },
    {
        let result = pop_greatest(&mut self.worklist);
        assert forall|v: usize| #[trigger] self.values().contains_key(v) implies v
            < self.graph().node_count by {
            assert(old(self).values().contains_key(v));
        }
        match result {
            Some(priority) => {
                assert(old(self).worklist_spec().contains(priority));
                assert forall|p: usize| #[trigger] self.worklist_spec().contains(p) implies p
                    < self.graph().node_count by {
                    assert(old(self).worklist_spec().contains(p));
                }
                Some(self.priority_to_node_list[priority])
            },
            None => {
                assert(self.worklist_spec() == old(self).worklist_spec());
                None
            },
        }
    }
}


impl<T: Context> Computation<T> {
    /// Compute the fixpoint of the fixpoint problem.
    /// Each node will be visited at most `max_steps` times.
    /// If a node does not stabilize after `max_steps` visits, the end result
    /// will not be a fixpoint but only an intermediate result of a fixpoint
    /// computation; the nodes that were not stabilized form the new worklist.
    pub fn compute_with_max_steps(&mut self, max_steps: u64)
        requires
            old(self).wf(),
        ensures
            final(self).wf(),
            final(self).context() == old(self).context(),
            final(self).priorities() == old(self).priorities(),
            final(self).priority_order() == old(self).priority_order(),
            forall|k: usize| #[trigger]
                old(self).values().contains_key(k) ==> final(self).values().contains_key(k),
            merge_is_semilattice(old(self).context()) ==> values_grow(
                old(self).context(),
                old(self).values(),
                final(self).values(),
            ),
            merge_is_semilattice(old(self).context()) && obeys_concrete_eq::<T::NodeValue>()
                && old(self).is_settled() ==> final(self).is_settled(),
            max_steps == 0 ==> final(self).values() == old(self).values()
                && final(self).worklist_spec() == old(self).worklist_spec(),
            old(self).worklist_spec().is_empty() ==> final(self).values() == old(self).values()
                && final(self).worklist_spec() == old(self).worklist_spec(),
            obeys_concrete_eq::<T::NodeValue>() ==> exists|fuel: nat|
                #[trigger] bounded_run(
                    old(self).context(),
                    old(self).priorities(),
                    old(self).priority_order(),
                    old(self).values(),
                    old(self).worklist_spec(),
                    no_visits(old(self).graph().node_count),
                    Set::empty(),
                    max_steps,
                    fuel,
                ) == Some((final(self).values(), final(self).worklist_spec())) && (
                final(self).worklist_spec().is_empty() ==> fuel <= old(self).graph().node_count
                    * max_steps),
    {
        let ghost ctx = self.context();
        let ghost prio = self.priorities();
        let ghost order = self.priority_order();
        let ghost graph = self.graph();
        let ghost start_values = self.values();
        let ghost start_worklist = self.worklist_spec();
        let ghost settling = merge_is_semilattice(ctx) && obeys_concrete_eq::<T::NodeValue>()
            && old(self).is_settled();
        let node_count = self.fp_context.get_graph().node_count();
        let mut steps: Vec<u64> = Vec::new();
        while steps.len() < node_count
            invariant
                steps@.len() <= node_count,
                forall|j: int| 0 <= j < steps@.len() ==> steps@[j] == 0,
            decreases node_count - steps@.len(),
        {
            steps.push(0);
        }
        let mut non_stabilized_nodes: BTreeSet<usize> = BTreeSet::new();
        let ghost zeros = no_visits(graph.node_count);
        let ghost mut rounds: nat = 0;
        let ghost mut visit_rounds: nat = 0;
        let ghost mut exhaust_rounds: nat = 0;
        proof {
            lemma_remaining_visits_none(graph.node_count, max_steps);
            assert(steps@ =~= zeros);
            lemma_step_ok_refl(ctx, prio, start_values, start_worklist);
            assert(start_worklist.union(non_stabilized_nodes@) =~= start_worklist);
        }
        loop
            invariant
                self.wf(),
                self.context() == ctx,
                self.priorities() == prio,
                self.priority_order() == old(self).priority_order(),
                graph == self.graph(),
                node_count == graph.node_count,
                ctx == old(self).context(),
                start_values == old(self).values(),
                start_worklist == old(self).worklist_spec(),
                settling == (merge_is_semilattice(ctx) && obeys_concrete_eq::<T::NodeValue>()
                    && old(self).is_settled()),
                steps@.len() == node_count,
                forall|p: usize| #[trigger] non_stabilized_nodes@.contains(p) ==> p < node_count,
                forall|k: usize| #[trigger]
                    start_values.contains_key(k) ==> self.values().contains_key(k),
                merge_is_semilattice(ctx) ==> values_grow(ctx, start_values, self.values()),
                settling ==> forall|e: int|
                    0 <= e < graph.edges.len() ==> #[trigger] edge_settled(
                        ctx,
                        prio,
                        self.values(),
                        self.worklist_spec().union(non_stabilized_nodes@),
                        e,
                    ),
                max_steps == 0 ==> self.values() == start_values && self.worklist_spec().union(
                    non_stabilized_nodes@,
                ) == start_worklist,
                start_worklist.is_empty() ==> self.values() == start_values
                    && self.worklist_spec().is_empty() && non_stabilized_nodes@.is_empty(),
                order == self.priority_order(),
                zeros == no_visits(graph.node_count),
                rounds == visit_rounds + exhaust_rounds,
                visit_rounds + remaining_visits(steps@, max_steps) == graph.node_count * max_steps,
                exhaust_rounds > 0 ==> !non_stabilized_nodes@.is_empty(),
                obeys_concrete_eq::<T::NodeValue>() ==> forall|f: nat|
                    bounded_run(
                        ctx,
                        prio,
                        order,
                        start_values,
                        start_worklist,
                        zeros,
                        Set::empty(),
                        max_steps,
                        f + rounds,
                    ) == #[trigger] bounded_run(
                        ctx,
                        prio,
                        order,
                        self.values(),
                        self.worklist_spec(),
                        steps@,
                        non_stabilized_nodes@,
                        max_steps,
                        f,
                    ),
            ensures
                self.worklist_spec().is_empty(),
            decreases remaining_visits(steps@, max_steps), self.worklist_spec().len(),
        {
            proof {
                lemma_bounded_set(self.worklist_spec(), node_count);
            }
            let ghost before_values = self.values();
            let ghost before_worklist = self.worklist_spec();
            let ghost before_remaining = remaining_visits(steps@, max_steps);
            let ghost before_steps = steps@;
            let ghost before_non_stabilized = non_stabilized_nodes@;
            let next = pop_greatest(&mut self.worklist);
            assert forall|v: usize| #[trigger] self.values().contains_key(v) implies v
                < self.graph().node_count by {
                assert(before_values.contains_key(v));
            }
            match next {
                None => {
                    assert(self.worklist_spec() == before_worklist);
                    break ;
                },
                Some(priority) => {
                    assert(before_worklist.contains(priority));
                    proof {
                        lemma_greatest(before_worklist, priority);
                    }
                    assert forall|p: usize| #[trigger] self.worklist_spec().contains(p) implies p
                        < node_count by {
                        assert(before_worklist.contains(p));
                    }
                    let node = self.priority_to_node_list[priority];
                    if steps[node] < max_steps {
                        let ghost popped_worklist = self.worklist_spec();
                        proof {
                            lemma_remaining_visits_step(steps@, max_steps, node as int);
                        }
                        steps.set(node, steps[node] + 1);
                        self.update_node(node);
                        proof {
                            lemma_bounded_run_round(
                                ctx,
                                prio,
                                order,
                                start_values,
                                start_worklist,
                                zeros,
                                max_steps,
                                rounds,
                                before_values,
                                before_worklist,
                                before_steps,
                                before_non_stabilized,
                                priority,
                                self.values(),
                                self.worklist_spec(),
                                steps@,
                                non_stabilized_nodes@,
                            );
                            rounds = rounds + 1;
                            visit_rounds = visit_rounds + 1;
                            if merge_is_semilattice(ctx) {
                                assert forall|k: usize| #[trigger]
                                    start_values.contains_key(k) implies self.values().contains_key(
                                    k,
                                ) && ctx.merge_spec(start_values[k], self.values()[k])
                                    == self.values()[k] by {
                                    assert(before_values.contains_key(k));
                                    assert(ctx.merge_spec(
                                        start_values[k],
                                        ctx.merge_spec(before_values[k], self.values()[k]),
                                    ) == ctx.merge_spec(
                                        ctx.merge_spec(start_values[k], before_values[k]),
                                        self.values()[k],
                                    ));
                                }
                            }
                            if settling {
                                assert forall|e: int|
                                    0 <= e < graph.edges.len() implies #[trigger] edge_settled(
                                    ctx,
                                    prio,
                                    self.values(),
                                    self.worklist_spec().union(non_stabilized_nodes@),
                                    e,
                                ) by {
                                    let (start, end) = graph.edges[e];
                                    if start == node {
                                        lemma_settled_more_pending(
                                            ctx,
                                            prio,
                                            self.values(),
                                            self.worklist_spec(),
                                            self.worklist_spec().union(non_stabilized_nodes@),
                                            e,
                                        );
                                    } else {
                                        assert(prio[start as int] != priority);
                                        assert(edge_settled(
                                            ctx,
                                            prio,
                                            before_values,
                                            before_worklist.union(non_stabilized_nodes@),
                                            e,
                                        ));
                                        assert(edge_settled(
                                            ctx,
                                            prio,
                                            before_values,
                                            popped_worklist.union(non_stabilized_nodes@),
                                            e,
                                        ));
                                        lemma_step_keeps_settled(
                                            ctx,
                                            prio,
                                            before_values,
                                            popped_worklist,
                                            self.values(),
                                            self.worklist_spec(),
                                            non_stabilized_nodes@,
                                            e,
                                        );
                                    }
                                }
                            }
                        }
                    } else {
                        non_stabilized_nodes.insert(priority);
                        proof {
                            lemma_bounded_run_round(
                                ctx,
                                prio,
                                order,
                                start_values,
                                start_worklist,
                                zeros,
                                max_steps,
                                rounds,
                                before_values,
                                before_worklist,
                                before_steps,
                                before_non_stabilized,
                                priority,
                                self.values(),
                                self.worklist_spec(),
                                steps@,
                                non_stabilized_nodes@,
                            );
                            rounds = rounds + 1;
                            exhaust_rounds = exhaust_rounds + 1;
                            assert(non_stabilized_nodes@.contains(priority));
                        }
                        assert(self.worklist_spec().union(non_stabilized_nodes@)
                            =~= before_worklist.union(before_non_stabilized));
                        proof {
                            if max_steps == 0 {
                                assert(self.worklist_spec().union(non_stabilized_nodes@)
                                    =~= start_worklist);
                            }
                        }
                    }
                },
            }
        }
        assert(self.worklist_spec().union(non_stabilized_nodes@) =~= non_stabilized_nodes@);
        let ghost values_before_reset = self.values();
        proof {
            if obeys_concrete_eq::<T::NodeValue>() {
                assert(bounded_run(
                    ctx,
                    prio,
                    order,
                    self.values(),
                    self.worklist_spec(),
                    steps@,
                    non_stabilized_nodes@,
                    max_steps,
                    0,
                ) == Some((self.values(), non_stabilized_nodes@)));
                assert(bounded_run(
                    ctx,
                    prio,
                    order,
                    start_values,
                    start_worklist,
                    zeros,
                    Set::empty(),
                    max_steps,
                    0 + rounds,
                ) == Some((self.values(), non_stabilized_nodes@)));
            }
        }
        // After the algorithm finished, the new worklist is the list of non-stabilized nodes
        self.worklist = non_stabilized_nodes;
        assert forall|p: usize| #[trigger] self.worklist_spec().contains(p) implies p
            < node_count by {
            assert(non_stabilized_nodes@.contains(p));
        }
        assert forall|v: usize| #[trigger] self.values().contains_key(v) implies v
            < node_count by {
            assert(values_before_reset.contains_key(v));
        }
        proof {
            if obeys_concrete_eq::<T::NodeValue>() {
                assert(bounded_run(
                    ctx,
                    prio,
                    order,
                    start_values,
                    start_worklist,
                    zeros,
                    Set::empty(),
                    max_steps,
                    rounds,
                ) == Some((self.values(), self.worklist_spec())));
            }
        }
    }
}


impl<T: Context> Computation<T> {
    /// Compute the fixpoint of the fixpoint problem: take the node of highest
    /// priority from the worklist and update its outgoing edges until the
    /// worklist is empty. The loop ends at the latest after `u64::MAX` node
    /// updates; a computation that has not converged by then keeps the nodes
    /// that are not yet stabilized on its worklist.
    pub fn compute(&mut self)
        requires
            old(self).wf(),
        ensures
            final(self).wf(),
            final(self).context() == old(self).context(),
            final(self).priorities() == old(self).priorities(),
            final(self).priority_order() == old(self).priority_order(),
            forall|k: usize| #[trigger]
                old(self).values().contains_key(k) ==> final(self).values().contains_key(k),
            merge_is_semilattice(old(self).context()) ==> values_grow(
                old(self).context(),
                old(self).values(),
                final(self).values(),
            ),
            merge_is_semilattice(old(self).context()) && obeys_concrete_eq::<T::NodeValue>()
                && old(self).is_settled() ==> final(self).is_settled(),
            old(self).worklist_spec().is_empty() ==> final(self).values() == old(self).values()
                && final(self).worklist_spec() == old(self).worklist_spec(),
            obeys_concrete_eq::<T::NodeValue>() ==> {
                let run = compute_run(
                    old(self).context(),
                    old(self).priorities(),
                    old(self).priority_order(),
                    old(self).values(),
                    old(self).worklist_spec(),
                    u64::MAX as nat,
                );
                final(self).values() == run.0 && final(self).worklist_spec() == run.1
            },
    {
        let ghost ctx = self.context();
        let ghost prio = self.priorities();
        let ghost order = self.priority_order();
        let ghost graph = self.graph();
        let ghost start_values = self.values();
        let ghost start_worklist = self.worklist_spec();
        let ghost settling = merge_is_semilattice(ctx) && obeys_concrete_eq::<T::NodeValue>()
            && old(self).is_settled();
        proof {
            lemma_step_ok_refl(ctx, prio, start_values, start_worklist);
        }
        let mut budget: u64 = u64::MAX;
        while budget > 0
            invariant
                self.wf(),
                self.context() == ctx,
                self.priorities() == prio,
                self.priority_order() == old(self).priority_order(),
                graph == self.graph(),
                ctx == old(self).context(),
                start_values == old(self).values(),
                settling == (merge_is_semilattice(ctx) && obeys_concrete_eq::<T::NodeValue>()
                    && old(self).is_settled()),
                forall|k: usize| #[trigger]
                    start_values.contains_key(k) ==> self.values().contains_key(k),
                merge_is_semilattice(ctx) ==> values_grow(ctx, start_values, self.values()),
                settling ==> self.is_settled(),
                start_worklist == old(self).worklist_spec(),
                start_worklist.is_empty() ==> self.values() == start_values
                    && self.worklist_spec() == start_worklist,
                order == self.priority_order(),
                obeys_concrete_eq::<T::NodeValue>() ==> compute_run(
                    ctx,
                    prio,
                    order,
                    start_values,
                    start_worklist,
                    u64::MAX as nat,
                ) == compute_run(ctx, prio, order, self.values(), self.worklist_spec(), budget as nat),
            ensures
                budget == 0 || self.worklist_spec().is_empty(),
            decreases budget,
        {
            let ghost before_values = self.values();
            let ghost before_worklist = self.worklist_spec();
            match self.take_next_node_from_worklist() {
                Some(node) => {
                    let ghost popped_worklist = self.worklist_spec();
                    let ghost p = prio[node as int];
                    proof {
                        lemma_greatest(before_worklist, p);
                        assert(order[p as int] == node);
                    }
                    self.update_node(node);
                    proof {
                        if merge_is_semilattice(ctx) {
                            assert forall|k: usize| #[trigger]
                                start_values.contains_key(k) implies self.values().contains_key(k)
                                && ctx.merge_spec(start_values[k], self.values()[k])
                                == self.values()[k] by {
                                assert(before_values.contains_key(k));
                                assert(ctx.merge_spec(
                                    start_values[k],
                                    ctx.merge_spec(before_values[k], self.values()[k]),
                                ) == ctx.merge_spec(
                                    ctx.merge_spec(start_values[k], before_values[k]),
                                    self.values()[k],
                                ));
                            }
                        }
                        if settling {
                            assert forall|e: int|
                                0 <= e < graph.edges.len() implies #[trigger] edge_settled(
                                ctx,
                                prio,
                                self.values(),
                                self.worklist_spec(),
                                e,
                            ) by {
                                let (start, end) = graph.edges[e];
                                if start != node {
                                    assert(edge_settled(ctx, prio, before_values, before_worklist, e));
                                    assert(popped_worklist.union(Set::empty()) =~= popped_worklist);
                                    assert(self.worklist_spec().union(Set::empty())
                                        =~= self.worklist_spec());
                                    lemma_step_keeps_settled(
                                        ctx,
                                        prio,
                                        before_values,
                                        popped_worklist,
                                        self.values(),
                                        self.worklist_spec(),
                                        Set::empty(),
                                        e,
                                    );
                                }
                            }
                        }
                    }
                    budget = budget - 1;
                },
                None => {
                    break ;
                },
            }
        }
    }

    /// Get a reference to the internal map where one can look up the current
    /// values of all nodes.
    pub fn node_values(&self) -> (r: &BTreeMap<usize, T::NodeValue>)
        ensures
            r@ == self.values(),
    {
        &self.node_values
    }

    /// Get a reference to the underlying graph.
    pub fn get_graph(&self) -> (r: &FlowGraph)
        ensures
            r == self.context().graph_spec(),
    {
        self.fp_context.get_graph()
    }

    /// Get a reference to the underlying context object.
    pub fn get_context(&self) -> (r: &T)
        ensures
            *r == self.context(),
    {
        &self.fp_context
    }

    /// The priority of each node: entry `n` is the priority of node `n`.
    pub fn node_priority_list(&self) -> (r: &Vec<usize>)
        ensures
            r@ == self.priorities(),
    {
        &self.node_priority_list
    }

    /// Returns `true` if the computation has stabilized, i.e. the internal
    /// worklist is empty.
    pub fn has_stabilized(&self) -> (r: bool)
        ensures
            r == self.worklist_spec().is_empty(),
    {
        self.worklist.is_empty()
    }

    /// Return a list of all nodes which are marked as not-stabilized, in
    /// increasing order of their priorities.
    pub fn get_worklist(&self) -> (r: Vec<usize>)
        requires
            self.wf(),
        ensures
            forall|i: int|
                #![trigger r@[i]]
                0 <= i < r@.len() ==> r@[i] < self.graph().node_count
                    && self.worklist_spec().contains(self.priorities()[r@[i] as int]),
            forall|p: usize| #[trigger]
                self.worklist_spec().contains(p) ==> r@.contains(self.priority_order()[p as int]),
            forall|i: int, j: int|
                #![trigger r@[i], r@[j]]
                0 <= i < j < r@.len() ==> self.priorities()[r@[i] as int]
                    < self.priorities()[r@[j] as int],
            r@.len() == 0 <==> self.worklist_spec().is_empty(),
    {
        let node_count = self.priority_to_node_list.len();
        let mut result: Vec<usize> = Vec::new();
        for priority in 0..node_count
            invariant
                self.wf(),
                node_count == self.graph().node_count,
                forall|i: int|
                    #![trigger result@[i]]
                    0 <= i < result@.len() ==> result@[i] < node_count
                        && self.worklist_spec().contains(self.priorities()[result@[i] as int])
                        && self.priorities()[result@[i] as int] < priority,
                forall|p: usize| #[trigger]
                    self.worklist_spec().contains(p) && p < priority ==> result@.contains(
                        self.priority_order()[p as int],
                    ),
                forall|i: int, j: int|
                    #![trigger result@[i], result@[j]]
                    0 <= i < j < result@.len() ==> self.priorities()[result@[i] as int]
                        < self.priorities()[result@[j] as int],
        {
            if self.worklist.contains(&priority) {
                let ghost before = result@;
                let node = self.priority_to_node_list[priority];
                assert(node == self.priority_order()[priority as int]);
                assert(self.priorities()[node as int] == priority);
                assert(self.worklist_spec().contains(priority));
                result.push(node);
                proof {
                    assert(result@[result@.len() - 1] == node);
                    assert forall|i: int| 0 <= i < result@.len() implies #[trigger] result@[i] < node_count
                        && self.worklist_spec().contains(self.priorities()[result@[i] as int])
                        && self.priorities()[result@[i] as int] < priority + 1 by {
                        if i < before.len() {
                            assert(result@[i] == before[i]);
                        }
                    }
                    assert forall|i: int, j: int|
                        0 <= i < j < result@.len() implies self.priorities()[#[trigger] result@[i] as int]
                        < self.priorities()[#[trigger] result@[j] as int] by {
                        assert(result@[i] == before[i]);
                        if j < before.len() {
                            assert(result@[j] == before[j]);
                        }
                    }
                    assert forall|p: usize| #[trigger]
                        self.worklist_spec().contains(p) && p < priority + 1 implies result@.contains(
                        self.priority_order()[p as int],
                    ) by {
                        if p < priority {
                            let k = choose|k: int|
                                0 <= k < before.len() && before[k] == self.priority_order()[p as int];
                            assert(result@[k] == before[k]);
                        } else {
                            assert(result@[result@.len() - 1] == self.priority_order()[p as int]);
                        }
                    }
                }
            }
        }
        proof {
            if !self.worklist_spec().is_empty() {
                let p = self.worklist_spec().choose();
                assert(self.worklist_spec().contains(p));
                assert(result@.contains(self.priority_order()[p as int]));
            }
            if result@.len() > 0 {
                assert(self.worklist_spec().contains(self.priorities()[result@[0] as int]));
            }
        }
        result
    }
}

} // verus!
