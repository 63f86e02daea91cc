//! Directed graphs for fixpoint computations.
//!
//! The graph structure (nodes and directed edges, both identified by their
//! indices) is stored in a `petgraph` graph without labels. Analyses that need
//! node or edge labels keep them in tables indexed by the same indices.

use petgraph::graph::DiGraph;
use petgraph::visit::EdgeRef;
use vstd::prelude::*;

verus! {

#[verifier::external_type_specification]
#[verifier::external_body]
#[verifier::reject_recursive_types(N)]
#[verifier::reject_recursive_types(E)]
#[verifier::reject_recursive_types(Ty)]
#[verifier::reject_recursive_types(Ix)]
pub struct ExPetGraph<N, E, Ty, Ix>(petgraph::graph::Graph<N, E, Ty, Ix>);

#[verifier::external_type_specification]
#[verifier::external_body]
pub struct ExDirected(petgraph::Directed);

/// The number of nodes held by a label-free `petgraph` graph.
pub uninterp spec fn petgraph_node_count(g: DiGraph<(), ()>) -> nat;

/// The edges held by a label-free `petgraph` graph: entry `i` is the
/// (source, target) pair of the edge with index `i`.
pub uninterp spec fn petgraph_edges(g: DiGraph<(), ()>) -> Seq<(usize, usize)>;

/// `DiGraph::new`: a graph without nodes and edges.
#[verifier::external_body]
fn petgraph_new() -> (g: DiGraph<(), ()>)
    ensures
        petgraph_node_count(g) == 0,
        petgraph_edges(g) == Seq::<(usize, usize)>::empty(),
{
    DiGraph::new()
}

/// The strongly connected components that `petgraph::algo::kosaraju_scc`
/// lists for the graph with `node_count` nodes and the edges `edges` (built by
/// adding the nodes and then the edges in their order), each as a list of node
/// indices.
pub uninterp spec fn petgraph_kosaraju_components(node_count: nat, edges: Seq<(usize, usize)>) -> Seq<Seq<usize>>;

/// `Graph::add_node`: appends a node; its index is the former node count.
/// petgraph asserts that the new index is not `u32::MAX`, the end marker of its
/// default index type, so that case is left out.
#[verifier::external_body]
fn petgraph_add_node(g: &mut DiGraph<(), ()>) -> (n: usize)
    requires
        petgraph_node_count(*old(g)) < u32::MAX,
    ensures
        n == petgraph_node_count(*old(g)),
        petgraph_node_count(*final(g)) == petgraph_node_count(*old(g)) + 1,
        petgraph_edges(*final(g)) == petgraph_edges(*old(g)),
{
    g.add_node(()).index()
}

/// `Graph::add_edge`: appends the edge `a -> b`; its index is the former edge
/// count. petgraph panics when `a` or `b` is not a node and asserts that the new
/// index is not `u32::MAX`; those cases are left out.
#[verifier::external_body]
fn petgraph_add_edge(g: &mut DiGraph<(), ()>, a: usize, b: usize) -> (e: usize)
    requires
        a < petgraph_node_count(*old(g)),
        b < petgraph_node_count(*old(g)),
        petgraph_edges(*old(g)).len() < u32::MAX,
    ensures
        e == petgraph_edges(*old(g)).len(),
        petgraph_node_count(*final(g)) == petgraph_node_count(*old(g)),
        petgraph_edges(*final(g)) == petgraph_edges(*old(g)).push((a, b)),
{
    g.add_edge(petgraph::graph::NodeIndex::new(a), petgraph::graph::NodeIndex::new(b), ()).index()
}

/// `Graph::node_count`: the number of nodes.
#[verifier::external_body]
fn petgraph_node_count_of(g: &DiGraph<(), ()>) -> (n: usize)
    ensures
        n == petgraph_node_count(*g),
{
    g.node_count()
}

/// `Graph::edge_endpoints`: the source and target of edge `e`, or `None` when
/// `e` is not an edge index. The index is converted to petgraph's `u32`
/// index type, which truncates larger values, so those are left out.
#[verifier::external_body]
fn petgraph_edge_endpoints(g: &DiGraph<(), ()>, e: usize) -> (r: Option<(usize, usize)>)
    requires
        e <= u32::MAX,
    ensures
        e < petgraph_edges(*g).len() ==> r == Some(petgraph_edges(*g)[e as int]),
        e >= petgraph_edges(*g).len() ==> r is None,
{
    g.edge_endpoints(petgraph::graph::EdgeIndex::new(e)).map(|(a, b)| (a.index(), b.index()))
}

/// `Graph::edges` on a directed graph: the indices of the edges leaving `node`.
/// petgraph keeps the outgoing edges of a node in a list to which `add_edge`
/// prepends, so they come most recently added first.
#[verifier::external_body]
fn petgraph_outgoing_edges(g: &DiGraph<(), ()>, node: usize) -> (r: Vec<usize>)
    requires
        node < petgraph_node_count(*g),
    ensures
        r@ == outgoing_edges_spec(petgraph_edges(*g), node),
{
    g.edges(petgraph::graph::NodeIndex::new(node)).map(|e| e.id().index()).collect()
}

/// `petgraph::algo::kosaraju_scc`: the strongly connected components, each a
/// list of node indices. Every node lies in exactly one component; the nodes
/// of a component reach one another; and the components come in postorder (a
/// reverse topological order), so an edge between two components leads to an
/// earlier one. The graph's adjacency lists, which the algorithm walks, are
/// determined by its nodes and its edges in the order of their indices.
#[verifier::external_body]
fn petgraph_kosaraju_scc(g: &DiGraph<(), ()>) -> (r: Vec<Vec<usize>>)
    ensures
        components_view(r@) == petgraph_kosaraju_components(petgraph_node_count(*g), petgraph_edges(*g)),
        scc_decomposition(petgraph_node_count(*g), petgraph_edges(*g), components_view(r@)),
{
    petgraph::algo::kosaraju_scc(g).into_iter().map(
        |component| component.into_iter().map(|n| n.index()).collect(),
    ).collect()
}

/// The contents of a list of components.
pub open spec fn components_view(components: Seq<Vec<usize>>) -> Seq<Seq<usize>> {
    components.map_values(|c: Vec<usize>| c@)
}

/// `path` is a path of the graph: consecutive nodes are joined by an edge.
pub open spec fn is_path(edges: Seq<(usize, usize)>, path: Seq<usize>) -> bool {
    &&& path.len() >= 1
    &&& forall|i: int|
        #![trigger path[i]]
        0 <= i < path.len() - 1 ==> edges.contains((path[i], path[i + 1]))
}

/// Node `b` can be reached from node `a` along the edges.
pub open spec fn reaches(edges: Seq<(usize, usize)>, a: usize, b: usize) -> bool {
    exists|path: Seq<usize>| #[trigger] is_path(edges, path) && path[0] == a && path.last() == b
}

/// Nodes `a` and `b` lie in one of the components.
pub open spec fn same_component(components: Seq<Seq<usize>>, a: usize, b: usize) -> bool {
    exists|i: int| 0 <= i < components.len() && #[trigger] components[i].contains(a) && components[i].contains(b)
}

/// `components` are the strongly connected components of the graph with
/// `node_count` nodes and the edges `edges`, in a reverse topological order:
/// together they hold every node exactly once, the nodes of a component reach
/// one another, and an edge between two components leads to an earlier one.
pub open spec fn scc_decomposition(
    node_count: nat,
    edges: Seq<(usize, usize)>,
    components: Seq<Seq<usize>>,
) -> bool {
    &&& components.flatten().len() == node_count
    &&& components.flatten().no_duplicates()
    &&& forall|k: int| 0 <= k < components.flatten().len() ==> components.flatten()[k] < node_count
    &&& forall|i: int, a: usize, b: usize|
        0 <= i < components.len() && #[trigger] components[i].contains(a)
            && #[trigger] components[i].contains(b) ==> reaches(edges, a, b)
    &&& forall|e: int, i: int, j: int|
        0 <= e < edges.len() && 0 <= i < components.len() && 0 <= j < components.len()
            && #[trigger] components[i].contains(edges[e].0) && #[trigger] components[j].contains(
            edges[e].1,
        ) ==> j <= i
}

/// The indices of the edges in `edges` whose source is `node`, in decreasing
/// order.
pub open spec fn outgoing_edges_spec(edges: Seq<(usize, usize)>, node: usize) -> Seq<usize>
    decreases edges.len(),
{
    if edges.len() == 0 {
        Seq::empty()
    } else {
        let rest = outgoing_edges_spec(edges.drop_last(), node);
        if edges.last().0 == node {
            seq![(edges.len() - 1) as usize] + rest
        } else {
            rest
        }
    }
}

/// The outgoing-edge list holds exactly the edges that leave `node`.
pub proof fn lemma_outgoing_edges(edges: Seq<(usize, usize)>, node: usize)
    requires
        edges.len() <= usize::MAX,
    ensures
        forall|k: int|
            0 <= k < outgoing_edges_spec(edges, node).len() ==> {
                let e = #[trigger] outgoing_edges_spec(edges, node)[k];
                e < edges.len() && edges[e as int].0 == node
            },
        forall|e: int|
            0 <= e < edges.len() && (#[trigger] edges[e]).0 == node ==> outgoing_edges_spec(
                edges,
                node,
            ).contains(e as usize),
    decreases edges.len(),
{
    if edges.len() > 0 {
        let prefix = edges.drop_last();
        lemma_outgoing_edges(prefix, node);
        let rest = outgoing_edges_spec(prefix, node);
        let out = outgoing_edges_spec(edges, node);
        assert forall|e: int|
            0 <= e < edges.len() && (#[trigger] edges[e]).0 == node implies out.contains(
            e as usize) by {
            if e < edges.len() - 1 {
                assert(prefix[e] == edges[e]);
                let k = choose|k: int| 0 <= k < rest.len() && rest[k] == e as usize;
                if edges.last().0 == node {
                    assert(out[k + 1] == e as usize);
                } else {
                    assert(out[k] == e as usize);
                }
            } else {
                assert(out[0] == e as usize);
            }
        }
        assert forall|k: int| 0 <= k < out.len() implies {
            let e = #[trigger] out[k];
            e < edges.len() && edges[e as int].0 == node
        } by {
            if edges.last().0 == node && k > 0 {
                assert(out[k] == rest[k - 1]);
                assert(prefix[rest[k - 1] as int] == edges[rest[k - 1] as int]);
            } else if edges.last().0 != node {
                assert(out[k] == rest[k]);
                assert(prefix[rest[k] as int] == edges[rest[k] as int]);
            }
        }
    }
}

/// Element `k` of component `i` stands in the flattened list right after the
/// components before it.
proof fn lemma_flatten_index(comps: Seq<Seq<usize>>, i: int, k: int)
    requires
        0 <= i < comps.len(),
        0 <= k < comps[i].len(),
    ensures
        comps.take(i).flatten_alt().len() + comps[i].len() <= comps.flatten_alt().len(),
        comps.flatten_alt()[comps.take(i).flatten_alt().len() + k] == comps[i][k],
    decreases comps.len(),
{
    let prefix = comps.drop_last();
    if i == comps.len() - 1 {
        assert(comps.take(i) =~= prefix);
    } else {
        lemma_flatten_index(prefix, i, k);
        assert(prefix.take(i) =~= comps.take(i));
        assert(prefix[i] == comps[i]);
    }
}

/// Every entry of the flattened list comes from some component.
proof fn lemma_flatten_member(comps: Seq<Seq<usize>>, m: int)
    requires
        0 <= m < comps.flatten_alt().len(),
    ensures
        exists|i: int| 0 <= i < comps.len() && #[trigger] comps[i].contains(comps.flatten_alt()[m]),
    decreases comps.len(),
{
    let prefix = comps.drop_last();
    assert(comps.len() > 0);
    assert(comps.flatten_alt() == prefix.flatten_alt() + comps.last());
    if m < prefix.flatten_alt().len() {
        lemma_flatten_member(prefix, m);
        let i = choose|i: int| 0 <= i < prefix.len() && #[trigger] prefix[i].contains(prefix.flatten_alt()[m]);
        assert(comps[i] == prefix[i]);
        assert(comps.flatten_alt()[m] == prefix.flatten_alt()[m]);
        assert(comps[i].contains(comps.flatten_alt()[m]));
    } else {
        let k = m - prefix.flatten_alt().len();
        let last = comps[comps.len() - 1];
        assert(0 <= k < last.len());
        assert(last[k] == comps.flatten_alt()[m]);
        assert(last.contains(comps.flatten_alt()[m]));
    }
}

/// The position of a node in the flattened list of components.
proof fn lemma_flatten_position(comps: Seq<Seq<usize>>, i: int, x: usize, p: int)
    requires
        comps.flatten_alt().no_duplicates(),
        0 <= i < comps.len(),
        comps[i].contains(x),
        0 <= p < comps.flatten_alt().len(),
        comps.flatten_alt()[p] == x,
    ensures
        comps.take(i).flatten_alt().len() <= p < comps.take(i).flatten_alt().len() + comps[i].len(),
{
    let k = choose|k: int| 0 <= k < comps[i].len() && comps[i][k] == x;
    lemma_flatten_index(comps, i, k);
}

/// A node of an earlier component stands before a node of a later one in
/// the flattened list.
proof fn lemma_flatten_positions_ordered(
    comps: Seq<Seq<usize>>,
    i: int,
    j: int,
    s: usize,
    t: usize,
    ps: int,
    pt: int,
)
    requires
        comps.flatten_alt().no_duplicates(),
        0 <= j < i < comps.len(),
        comps[i].contains(s),
        comps[j].contains(t),
        0 <= ps < comps.flatten_alt().len(),
        0 <= pt < comps.flatten_alt().len(),
        comps.flatten_alt()[ps] == s,
        comps.flatten_alt()[pt] == t,
    ensures
        pt < ps,
{
    lemma_flatten_position(comps, i, s, ps);
    lemma_flatten_position(comps, j, t, pt);
    let k = choose|k: int| 0 <= k < comps[j].len() && comps[j][k] == t;
    lemma_flatten_index(comps.take(i), j, k);
    assert(comps.take(i).take(j) =~= comps.take(j));
    assert(comps.take(i)[j] == comps[j]);
}

/// For an edge from `s` to `t` whose nodes stand at positions `ps` and `pt`
/// of the flattened components: either both nodes lie in one component, or
/// `t` comes before `s` (a weak topological order, reversed).
pub proof fn lemma_scc_order_edge(
    node_count: nat,
    edges: Seq<(usize, usize)>,
    comps: Seq<Seq<usize>>,
    e: int,
    ps: int,
    pt: int,
)
    requires
        scc_decomposition(node_count, edges, comps),
        0 <= e < edges.len(),
        0 <= ps < comps.flatten().len(),
        0 <= pt < comps.flatten().len(),
        comps.flatten()[ps] == edges[e].0,
        comps.flatten()[pt] == edges[e].1,
    ensures
        same_component(comps, edges[e].0, edges[e].1) || pt < ps,
{
    comps.lemma_flatten_and_flatten_alt_are_equivalent();
    let flat = comps.flatten_alt();
    lemma_flatten_member(comps, ps);
    lemma_flatten_member(comps, pt);
    let i = choose|i: int| 0 <= i < comps.len() && #[trigger] comps[i].contains(flat[ps]);
    let j = choose|j: int| 0 <= j < comps.len() && #[trigger] comps[j].contains(flat[pt]);
    assert(j <= i);
    if j < i {
        lemma_flatten_positions_ordered(comps, i, j, edges[e].0, edges[e].1, ps, pt);
    }
}

/// A directed graph whose nodes are `0..node_count` and whose edges are
/// numbered in the order in which they were added.
pub struct FlowGraph {
    graph: DiGraph<(), ()>,
}

/// The mathematical content of a [`FlowGraph`].
pub struct GraphView {
    pub node_count: nat,
    /// Entry `i` is the (source, target) pair of the edge with index `i`.
    pub edges: Seq<(usize, usize)>,
}

impl GraphView {
    /// Every edge joins two nodes of the graph, and the node and edge counts
    /// stay within petgraph's default index type.
    pub open spec fn wf(self) -> bool {
        &&& self.node_count <= u32::MAX
        &&& self.edges.len() <= u32::MAX
        &&& forall|i: int|
            0 <= i < self.edges.len() ==> (#[trigger] self.edges[i]).0 < self.node_count
                && self.edges[i].1 < self.node_count
    }
}

impl View for FlowGraph {
    type V = GraphView;

    closed spec fn view(&self) -> GraphView {
        GraphView { node_count: petgraph_node_count(self.graph), edges: petgraph_edges(self.graph) }
    }
}

impl FlowGraph {
    #[verifier::type_invariant]
    closed spec fn inv(self) -> bool {
        self@.wf()
    }

    /// The strongly connected components of the graph, as Kosaraju's
    /// algorithm lists them.
    pub open spec fn scc_components_spec(&self) -> Seq<Seq<usize>> {
        petgraph_kosaraju_components(self@.node_count, self@.edges)
    }

    /// A graph without nodes and edges.
    pub fn new() -> (g: Self)
        ensures
            g@.node_count == 0,
            g@.edges == Seq::<(usize, usize)>::empty(),
    {
        FlowGraph { graph: petgraph_new() }
    }

    /// Adds a node and returns its index, the former node count.
    pub fn add_node(&mut self) -> (n: usize)
        requires
            old(self)@.node_count < u32::MAX,
        ensures
            n == old(self)@.node_count,
            final(self)@.node_count == old(self)@.node_count + 1,
            final(self)@.edges == old(self)@.edges,
    {
        proof {
            use_type_invariant(&*self);
        }
        let mut graph = petgraph_new();
        std::mem::swap(&mut graph, &mut self.graph);
        let n = petgraph_add_node(&mut graph);
        self.graph = graph;
        n
    }

    /// Adds the edge `a -> b` and returns its index, the former edge count.
    pub fn add_edge(&mut self, a: usize, b: usize) -> (e: usize)
        requires
            a < old(self)@.node_count,
            b < old(self)@.node_count,
            old(self)@.edges.len() < u32::MAX,
        ensures
            e == old(self)@.edges.len(),
            final(self)@.node_count == old(self)@.node_count,
            final(self)@.edges == old(self)@.edges.push((a, b)),
    {
        proof {
            use_type_invariant(&*self);
        }
        let mut graph = petgraph_new();
        std::mem::swap(&mut graph, &mut self.graph);
        let e = petgraph_add_edge(&mut graph, a, b);
        self.graph = graph;
        e
    }

    /// The number of nodes.
    pub fn node_count(&self) -> (n: usize)
        ensures
            n == self@.node_count,
            self@.wf(),
    {
        proof {
            use_type_invariant(self);
        }
        petgraph_node_count_of(&self.graph)
    }

    /// The source and target of edge `e`, or `None` when there is no such edge.
    pub fn edge_endpoints(&self, e: usize) -> (r: Option<(usize, usize)>)
        ensures
            e < self@.edges.len() ==> r == Some(self@.edges[e as int]),
            e >= self@.edges.len() ==> r is None,
            self@.wf(),
    {
        proof {
            use_type_invariant(self);
        }
        if e > u32::MAX as usize {
            return None;
        }
        petgraph_edge_endpoints(&self.graph, e)
    }

    /// The indices of the edges leaving `node`, most recently added first.
    pub fn edges(&self, node: usize) -> (r: Vec<usize>)
        requires
            node < self@.node_count,
        ensures
            r@ == outgoing_edges_spec(self@.edges, node),
            self@.wf(),
    {
        proof {
            use_type_invariant(self);
        }
        petgraph_outgoing_edges(&self.graph, node)
    }

    /// The nodes ordered by their strongly connected components, as Kosaraju's
    /// algorithm lists them: components in postorder (a reverse topological
    /// order), each node exactly once.
    pub fn scc_order(&self) -> (r: Vec<usize>)
        ensures
            r@ == self.scc_components_spec().flatten(),
            scc_decomposition(self@.node_count, self@.edges, self.scc_components_spec()),
            r@.len() == self@.node_count,
            r@.no_duplicates(),
            forall|i: int| 0 <= i < r@.len() ==> r@[i] < self@.node_count,
            self@.wf(),
    {
        proof {
            use_type_invariant(self);
        }
        let components = petgraph_kosaraju_scc(&self.graph);
        let ghost comps = components_view(components@);
        let mut r: Vec<usize> = Vec::new();
        for i in 0..components.len()
            invariant
                comps == components_view(components@),
                r@ == comps.take(i as int).flatten_alt(),
        {
            let component = &components[i];
            let ghost before = r@;
            for k in 0..component.len()
                invariant
                    comps == components_view(components@),
                    i < components@.len(),
                    *component == components@[i as int],
                    r@ == before + component@.take(k as int),
            {
                r.push(component[k]);
                assert(r@ =~= before + component@.take(k + 1));
            }
            assert(component@.take(component@.len() as int) =~= component@);
            assert(comps.take(i + 1).drop_last() =~= comps.take(i as int));
            assert(comps.take(i + 1).last() == comps[i as int]);
        }
        proof {
            assert(comps.take(comps.len() as int) =~= comps);
            comps.lemma_flatten_and_flatten_alt_are_equivalent();
        }
        r
    }
}

} // verus!
