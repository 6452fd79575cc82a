//! The section graph's storage: an undirected `petgraph` graph whose
//! node weights are grid positions and whose edge weights are pairs of
//! thickness and elastic modulus.
//!
//! Nothing in this file is proved. Each function hands one call on to
//! `petgraph` and states what the call does to the nodes and edges of the
//! graph, as `petgraph` documents and implements it.

use vstd::prelude::*;
use petgraph::graph::{EdgeIndex, NodeIndex};

verus! {

#[verifier::external_type_specification]
#[verifier::external_body]
#[verifier::reject_recursive_types(N)]
#[verifier::reject_recursive_types(E)]
#[verifier::reject_recursive_types(Ty)]
#[verifier::reject_recursive_types(Ix)]
pub struct ExGraph<N, E, Ty, Ix>(petgraph::graph::Graph<N, E, Ty, Ix>);

#[verifier::external_type_specification]
#[verifier::external_body]
pub struct ExUndirected(petgraph::Undirected);

/// The weight of a node: its position `(x, y)`.
pub type NodeWeight = (i64, i64);

/// The weight of an edge: `(thickness, elastic)`.
pub type EdgeWeight = (i64, i64);

/// An edge as the graph stores it: source, target and weight.
pub type EdgeEntry = (u32, u32, (i64, i64));

/// The graph type that holds a section.
pub type SectionGraph = petgraph::graph::Graph<(i64, i64), (i64, i64), petgraph::Undirected, u32>;

/// The node weights of a graph, by node index.
pub uninterp spec fn graph_nodes(
    g: petgraph::graph::Graph<(i64, i64), (i64, i64), petgraph::Undirected, u32>,
) -> Seq<(i64, i64)>;

/// The edges of a graph, by edge index.
pub uninterp spec fn graph_edges(
    g: petgraph::graph::Graph<(i64, i64), (i64, i64), petgraph::Undirected, u32>,
) -> Seq<(u32, u32, (i64, i64))>;

/// A sequence after `swap_remove(i)`: the last element takes the place of
/// the removed one.
pub open spec fn swap_removed<T>(s: Seq<T>, i: int) -> Seq<T> {
    if i == s.len() - 1 {
        s.drop_last()
    } else {
        s.update(i, s.last()).drop_last()
    }
}

/// The edge is not attached to node `a`.
pub open spec fn clear_of(e: EdgeEntry, a: u32) -> bool {
    e.0 != a && e.1 != a
}

/// The edge with each end at node `last` moved to node `a`.
pub open spec fn moved(e: EdgeEntry, last: u32, a: u32) -> EdgeEntry {
    (
        if e.0 == last {
            a
        } else {
            e.0
        },
        if e.1 == last {
            a
        } else {
            e.1
        },
        e.2,
    )
}

/// The edges left when node `a` is removed and node `last` takes its
/// index: those not attached to `a`, with their ends renamed.
pub open spec fn edges_without(edges: Seq<EdgeEntry>, a: u32, last: u32) -> Seq<EdgeEntry> {
    edges.filter(|e: EdgeEntry| clear_of(e, a)).map_values(|e: EdgeEntry| moved(e, last, a))
}

/// `Graph::new_undirected`: a graph without nodes and edges.
#[verifier::external_body]
pub(crate) fn graph_new() -> (g: SectionGraph)
    ensures
        graph_nodes(g) == Seq::<NodeWeight>::empty(),
        graph_edges(g) == Seq::<EdgeEntry>::empty(),
{
    petgraph::graph::Graph::new_undirected()
}

/// `Clone::clone` of a graph: the copy has the same nodes and edges under
/// the same indices.
#[verifier::external_body]
pub(crate) fn graph_clone(g: &SectionGraph) -> (h: SectionGraph)
    ensures
        graph_nodes(h) == graph_nodes(*g),
        graph_edges(h) == graph_edges(*g),
{
    g.clone()
}

/// `Graph::node_count`: the number of nodes.
#[verifier::external_body]
pub(crate) fn graph_node_count(g: &SectionGraph) -> (n: usize)
    ensures
        n == graph_nodes(*g).len(),
{
    g.node_count()
}

/// `Graph::edge_count`: the number of edges.
#[verifier::external_body]
pub(crate) fn graph_edge_count(g: &SectionGraph) -> (n: usize)
    ensures
        n == graph_edges(*g).len(),
{
    g.edge_count()
}

/// `Graph::add_node`: appends a node and returns its index. The call
/// panics when the index type is exhausted, which `requires` rules out.
#[verifier::external_body]
pub(crate) fn graph_add_node(g: &mut SectionGraph, w: NodeWeight) -> (id: u32)
    requires
        graph_nodes(*old(g)).len() < u32::MAX,
    ensures
        graph_nodes(*final(g)) == graph_nodes(*old(g)).push(w),
        graph_edges(*final(g)) == graph_edges(*old(g)),
        id == graph_nodes(*old(g)).len(),
{
    g.add_node(w).index() as u32
}

/// `Graph::add_edge`: appends an edge from `a` to `b` and returns its
/// index. The call panics when an end does not exist or the index type is
/// exhausted, which `requires` rules out.
#[verifier::external_body]
pub(crate) fn graph_add_edge(g: &mut SectionGraph, a: u32, b: u32, w: EdgeWeight) -> (id: u32)
    requires
        a < graph_nodes(*old(g)).len(),
        b < graph_nodes(*old(g)).len(),
        graph_edges(*old(g)).len() < u32::MAX,
    ensures
        graph_nodes(*final(g)) == graph_nodes(*old(g)),
        graph_edges(*final(g)) == graph_edges(*old(g)).push((a, b, w)),
        id == graph_edges(*old(g)).len(),
{
    g.add_edge(NodeIndex::new(a as usize), NodeIndex::new(b as usize), w).index() as u32
}

/// `Graph::node_weight`: the weight of node `a`, if the node exists.
#[verifier::external_body]
pub(crate) fn graph_node_weight(g: &SectionGraph, a: u32) -> (w: Option<NodeWeight>)
    ensures
        a < graph_nodes(*g).len() ==> w == Some(graph_nodes(*g)[a as int]),
        a >= graph_nodes(*g).len() ==> w.is_none(),
{
    g.node_weight(NodeIndex::new(a as usize)).copied()
}

/// `Graph::node_weight_mut`, used to overwrite the weight of an existing
/// node.
#[verifier::external_body]
pub(crate) fn graph_set_node_weight(g: &mut SectionGraph, a: u32, w: NodeWeight)
    requires
        a < graph_nodes(*old(g)).len(),
    ensures
        graph_nodes(*final(g)) == graph_nodes(*old(g)).update(a as int, w),
        graph_edges(*final(g)) == graph_edges(*old(g)),
{
    *g.node_weight_mut(NodeIndex::new(a as usize)).unwrap() = w;
}

/// `Graph::edge_weight`: the weight of edge `e`, if the edge exists.
#[verifier::external_body]
pub(crate) fn graph_edge_weight(g: &SectionGraph, e: u32) -> (w: Option<EdgeWeight>)
    ensures
        e < graph_edges(*g).len() ==> w == Some(graph_edges(*g)[e as int].2),
        e >= graph_edges(*g).len() ==> w.is_none(),
{
    g.edge_weight(EdgeIndex::new(e as usize)).copied()
}

/// `Graph::edge_endpoints`: source and target of edge `e`, if the edge
/// exists.
#[verifier::external_body]
pub(crate) fn graph_edge_endpoints(g: &SectionGraph, e: u32) -> (ends: Option<(u32, u32)>)
    ensures
        e < graph_edges(*g).len() ==> ends == Some(
            (graph_edges(*g)[e as int].0, graph_edges(*g)[e as int].1),
        ),
        e >= graph_edges(*g).len() ==> ends.is_none(),
{
    g.edge_endpoints(EdgeIndex::new(e as usize)).map(|(a, b)| (a.index() as u32, b.index() as u32))
}

/// `Graph::remove_edge`: removes edge `e` and returns its weight; the
/// last edge takes over the index `e`. Without such an edge nothing
/// changes.
#[verifier::external_body]
pub(crate) fn graph_remove_edge(g: &mut SectionGraph, e: u32) -> (w: Option<EdgeWeight>)
    ensures
        graph_nodes(*final(g)) == graph_nodes(*old(g)),
        e < graph_edges(*old(g)).len() ==> w == Some(graph_edges(*old(g))[e as int].2)
            && graph_edges(*final(g)) == swap_removed(graph_edges(*old(g)), e as int),
        e >= graph_edges(*old(g)).len() ==> w.is_none() && graph_edges(*final(g)) == graph_edges(
            *old(g),
        ),
{
    g.remove_edge(EdgeIndex::new(e as usize))
}

/// `Graph::remove_node`: removes node `a` with every edge attached to it
/// and returns its weight; the last node takes over the index `a`, in
/// the node list and in the ends of its edges. The order in which the
/// remaining edges are indexed is left open. Without such a node nothing
/// changes.
#[verifier::external_body]
pub(crate) fn graph_remove_node(g: &mut SectionGraph, a: u32) -> (w: Option<NodeWeight>)
    ensures
        a < graph_nodes(*old(g)).len() ==> {
            &&& w == Some(graph_nodes(*old(g))[a as int])
            &&& graph_nodes(*final(g)) == swap_removed(graph_nodes(*old(g)), a as int)
            &&& graph_edges(*final(g)).to_multiset() == edges_without(
                graph_edges(*old(g)),
                a,
                (graph_nodes(*old(g)).len() - 1) as u32,
            ).to_multiset()
        },
        a >= graph_nodes(*old(g)).len() ==> {
            &&& w.is_none()
            &&& graph_nodes(*final(g)) == graph_nodes(*old(g))
            &&& graph_edges(*final(g)) == graph_edges(*old(g))
        },
{
    g.remove_node(NodeIndex::new(a as usize))
}

} // verus!
