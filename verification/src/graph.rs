//! The directed graph of the network, held in a `petgraph::Graph`.
//!
//! A node's weight is a neuron's identifier and layer; an edge's weight says whether
//! the edge joins two neurons of one layer and where its synaptic weight is found.
//! The graph's contents are named by [`graph_nodes`] and [`graph_edges`]; the
//! functions below are the only calls made into `petgraph`.
use vstd::prelude::*;
use petgraph::graph::{Graph, NodeIndex};
use petgraph::{Directed, Direction};

verus! {

#[verifier::external_type_specification]
#[verifier::external_body]
#[verifier::reject_recursive_types(N)]
#[verifier::reject_recursive_types(E)]
#[verifier::reject_recursive_types(Ty)]
#[verifier::reject_recursive_types(Ix)]
pub struct ExGraph<N, E, Ty, Ix>(Graph<N, E, Ty, Ix>);

#[verifier::external_type_specification]
#[verifier::external_body]
pub struct ExDirected(Directed);

/// The node weights of a graph, in the order of their node indices.
pub uninterp spec fn graph_nodes(g: Graph<(u32, usize), (bool, usize)>) -> Seq<(u32, usize)>;

/// The edges of a graph, in the order of their edge indices: source node index,
/// target node index, and the two parts of the edge's weight.
pub uninterp spec fn graph_edges(g: Graph<(u32, usize), (bool, usize)>) -> Seq<(usize, usize, bool, usize)>;

/// The targets of the edges among the first `k` of `edges` whose source is `a`.
pub open spec fn out_targets(edges: Seq<(usize, usize, bool, usize)>, a: int, k: int) -> Seq<usize>
    decreases k,
{
    if k <= 0 {
        Seq::empty()
    } else {
        out_targets(edges, a, k - 1) + if edges[k - 1].0 == a {
            seq![edges[k - 1].1]
        } else {
            Seq::empty()
        }
    }
}

/// `Graph::new`: a directed graph with no node and no edge.
#[verifier::external_body]
pub(crate) fn graph_new() -> (g: Graph<(u32, usize), (bool, usize)>)
    ensures
        graph_nodes(g) == Seq::<(u32, usize)>::empty(),
        graph_edges(g) == Seq::<(usize, usize, bool, usize)>::empty(),
{
    Graph::new()
}

/// `Graph::add_node`: appends a node with weight `w` and returns its index, the
/// former number of nodes; the edges are untouched. It panics when the index would
/// reach the largest `u32`, which `requires` rules out.
#[verifier::external_body]
pub(crate) fn graph_add_node(g: &mut Graph<(u32, usize), (bool, usize)>, w: (u32, usize)) -> (idx: usize)
    requires
        graph_nodes(*old(g)).len() < u32::MAX,
    ensures
        graph_nodes(*final(g)) == graph_nodes(*old(g)).push(w),
        graph_edges(*final(g)) == graph_edges(*old(g)),
        idx == graph_nodes(*old(g)).len(),
{
    g.add_node(w).index()
}

/// `Graph::add_edge`: appends an edge from node `a` to node `b` with weight `w`;
/// the nodes are untouched. It panics when a node does not exist or when the edge's
/// index would reach the largest `u32`, which `requires` rules out.
#[verifier::external_body]
pub(crate) fn graph_add_edge(g: &mut Graph<(u32, usize), (bool, usize)>, a: usize, b: usize, w: (bool, usize))
    requires
        a < graph_nodes(*old(g)).len(),
        b < graph_nodes(*old(g)).len(),
        graph_edges(*old(g)).len() < u32::MAX,
    ensures
        graph_nodes(*final(g)) == graph_nodes(*old(g)),
        graph_edges(*final(g)) == graph_edges(*old(g)).push((a, b, w.0, w.1)),
{
    g.add_edge(NodeIndex::new(a), NodeIndex::new(b), w);
}

/// `Graph::node_weights`: the node weights in the order of their indices.
#[verifier::external_body]
pub(crate) fn graph_node_weights(g: &Graph<(u32, usize), (bool, usize)>) -> (ws: Vec<(u32, usize)>)
    ensures
        ws@ == graph_nodes(*g),
{
    g.node_weights().cloned().collect()
}

/// `Graph::neighbors_directed` with `Outgoing`: the targets of the edges that leave
/// node `a`, each edge counted once, so as a multiset the same as the targets of the
/// edges whose source is `a`; every target is a node of the graph. The order of the
/// targets is left unstated here: petgraph lists them newest edge first, which
/// matches the order of [`graph_edges`] only as long as no edge was ever removed.
#[verifier::external_body]
pub(crate) fn graph_out_neighbors(g: &Graph<(u32, usize), (bool, usize)>, a: u32) -> (ns: Vec<usize>)
    ensures
        ns@.to_multiset() == out_targets(graph_edges(*g), a as int, graph_edges(*g).len() as int).to_multiset(),
        forall|i: int| 0 <= i < ns@.len() ==> #[trigger] ns@[i] < graph_nodes(*g).len(),
{
    g.neighbors_directed(NodeIndex::from(a), Direction::Outgoing).map(|n| n.index()).collect()
}

/// `Graph::find_edge`: an edge from node `a` to node `b`, when there is one. Which of
/// several such edges it returns is left unstated here: petgraph returns the first it
/// meets in `a`'s list of outgoing edges, whose order depends on the edges' history.
#[verifier::external_body]
pub(crate) fn graph_find_edge(g: &Graph<(u32, usize), (bool, usize)>, a: u32, b: u32) -> (e: Option<usize>)
    ensures
        e is None <==> !(exists|k: int|
            0 <= k < graph_edges(*g).len() && #[trigger] graph_edges(*g)[k].0 == a && graph_edges(*g)[k].1 == b),
        e matches Some(k) ==> k < graph_edges(*g).len() && graph_edges(*g)[k as int].0 == a && graph_edges(*g)[k as int].1
            == b,
{
    g.find_edge(NodeIndex::from(a), NodeIndex::from(b)).map(|e| e.index())
}

} // verus!
