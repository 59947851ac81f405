//! The graph container: nodes and edges in a `petgraph` stable graph.
//!
//! Nodes and edges go by numbers that stay with them when others come and go. What the container holds is
//! named here once, and each operation states what it does to that.

use vstd::prelude::*;

use rustworkx_core::petgraph::stable_graph::EdgeIndex;
use rustworkx_core::petgraph::stable_graph::NodeIndex;
use rustworkx_core::petgraph::stable_graph::StableGraph;
use rustworkx_core::petgraph::visit::EdgeRef;
use rustworkx_core::petgraph::visit::IntoEdgeReferences;
use rustworkx_core::petgraph::Directed;

use crate::virtual_flow_graph::Edge;
use crate::virtual_flow_graph::Node;

verus! {

/// `petgraph`'s stable graph, as an outside type.
#[verifier::external_type_specification]
#[verifier::external_body]
#[verifier::reject_recursive_types(N)]
#[verifier::reject_recursive_types(E)]
#[verifier::reject_recursive_types(Ty)]
#[verifier::reject_recursive_types(Ix)]
pub struct ExStableGraph<N, E, Ty, Ix>(StableGraph<N, E, Ty, Ix>);

/// `petgraph`'s marker for directed graphs, as an outside type.
#[verifier::external_type_specification]
#[verifier::external_body]
pub struct ExDirected(Directed);

/// The nodes a graph holds, by number.
pub uninterp spec fn graph_nodes(graph: StableGraph<Node, Edge, Directed, u32>) -> Map<u32, Node>;

/// The edges a graph holds, by number: where each leads from, where to, and what it carries.
pub uninterp spec fn graph_edges(graph: StableGraph<Node, Edge, Directed, u32>) -> Map<
    u32,
    (u32, u32, Edge),
>;

/// For each node, the numbers of the edges leading from it, in the order they are walked.
pub uninterp spec fn graph_outgoing(graph: StableGraph<Node, Edge, Directed, u32>) -> Map<
    u32,
    Seq<u32>,
>;

/// For each node, the numbers of the edges leading to it, in the order they are walked.
pub uninterp spec fn graph_incoming(graph: StableGraph<Node, Edge, Directed, u32>) -> Map<
    u32,
    Seq<u32>,
>;

/// Whether a list of numbers is in strictly ascending order.
pub open spec fn ascending(numbers: Seq<u32>) -> bool {
    forall|i: int, j: int| 0 <= i < j < numbers.len() ==> #[trigger] numbers[i] < #[trigger] numbers[j]
}

/// The edges left once those at a node are gone.
pub open spec fn edges_off(edges: Map<u32, (u32, u32, Edge)>, node: u32) -> Map<
    u32,
    (u32, u32, Edge),
> {
    edges.restrict(
        Set::new(
            |id: u32| edges.dom().contains(id) && edges[id].0 != node && edges[id].1 != node,
        ),
    )
}

/// Which edges are not at a node.
pub open spec fn off(edges: Map<u32, (u32, u32, Edge)>, node: u32) -> spec_fn(u32) -> bool {
    |id: u32| edges[id].0 != node && edges[id].1 != node
}

/// The walking orders left once a node and the edges at it are gone: the same edges in the same order,
/// without those.
pub open spec fn walks_off(
    walks: Map<u32, Seq<u32>>,
    edges: Map<u32, (u32, u32, Edge)>,
    node: u32,
) -> Map<u32, Seq<u32>> {
    Map::new(
        |other: u32| walks.dom().contains(other) && other != node,
        |other: u32| walks[other].filter(off(edges, node)),
    )
}

/// Whether a sequence of nodes is a path along edges.
pub open spec fn is_path(edges: Map<u32, (u32, u32, Edge)>, path: Seq<u32>) -> bool {
    &&& path.len() > 0
    &&& forall|i: int|
        0 <= i < path.len() - 1 ==> linked(edges, #[trigger] path[i], path[i + 1])
}

/// Whether some edge leads from one node to another.
pub open spec fn linked(edges: Map<u32, (u32, u32, Edge)>, from: u32, to: u32) -> bool {
    exists|id: u32| #[trigger] edges.dom().contains(id) && edges[id].0 == from && edges[id].1 == to
}

/// Whether one node can be reached from another along edges, every node being reachable from itself.
pub open spec fn reaches(edges: Map<u32, (u32, u32, Edge)>, from: u32, to: u32) -> bool {
    exists|path: Seq<u32>| #[trigger] is_path(edges, path) && path[0] == from && path.last() == to
}

/// `StableGraph::new`: a graph with nothing in it.
#[verifier::external_body]
pub(crate) fn new() -> (graph: StableGraph<Node, Edge, Directed, u32>)
    ensures
        graph_nodes(graph).dom() == Set::<u32>::empty(),
        graph_edges(graph).dom() == Set::<u32>::empty(),
        graph_outgoing(graph).dom() == Set::<u32>::empty(),
        graph_incoming(graph).dom() == Set::<u32>::empty(),
{
    StableGraph::new()
}

/// `StableGraph::add_node`: the node joins the graph under a number no node had, with no edge at it. A
/// graph with a number to spare has room for it.
#[verifier::external_body]
pub(crate) fn add_node(graph: &mut StableGraph<Node, Edge, Directed, u32>, node: Node) -> (index: u32)
    requires
        graph_nodes(*old(graph)).dom().len() < u32::MAX,
    ensures
        !graph_nodes(*old(graph)).dom().contains(index),
        graph_nodes(*final(graph)) == graph_nodes(*old(graph)).insert(index, node),
        graph_edges(*final(graph)) == graph_edges(*old(graph)),
        graph_outgoing(*final(graph)) == graph_outgoing(*old(graph)).insert(index, Seq::empty()),
        graph_incoming(*final(graph)) == graph_incoming(*old(graph)).insert(index, Seq::empty()),
{
    graph.add_node(node).index() as u32
}

/// `StableGraph::add_edge`: the edge joins the graph under a number no edge had, first among the edges
/// leading from its source and first among those leading to its target.
#[verifier::external_body]
pub(crate) fn add_edge(
    graph: &mut StableGraph<Node, Edge, Directed, u32>,
    from: u32,
    to: u32,
    edge: Edge,
) -> (id: u32)
    requires
        graph_nodes(*old(graph)).dom().contains(from),
        graph_nodes(*old(graph)).dom().contains(to),
        graph_edges(*old(graph)).dom().len() < u32::MAX,
    ensures
        !graph_edges(*old(graph)).dom().contains(id),
        graph_nodes(*final(graph)) == graph_nodes(*old(graph)),
        graph_edges(*final(graph)) == graph_edges(*old(graph)).insert(id, (from, to, edge)),
        graph_outgoing(*final(graph)) == graph_outgoing(*old(graph)).insert(
            from,
            seq![id] + graph_outgoing(*old(graph))[from],
        ),
        graph_incoming(*final(graph)) == graph_incoming(*old(graph)).insert(
            to,
            seq![id] + graph_incoming(*old(graph))[to],
        ),
{
    graph.add_edge(NodeIndex::new(from as usize), NodeIndex::new(to as usize), edge).index() as u32
}

/// `StableGraph::remove_node`: the node and every edge at it leave the graph; every other node and edge
/// keeps its number, and the edges at other nodes are walked in the order they were.
#[verifier::external_body]
pub(crate) fn remove_node(graph: &mut StableGraph<Node, Edge, Directed, u32>, node: u32)
    requires
        graph_nodes(*old(graph)).dom().contains(node),
    ensures
        graph_nodes(*final(graph)) == graph_nodes(*old(graph)).remove(node),
        graph_edges(*final(graph)) == edges_off(graph_edges(*old(graph)), node),
        graph_outgoing(*final(graph)) == walks_off(
            graph_outgoing(*old(graph)),
            graph_edges(*old(graph)),
            node,
        ),
        graph_incoming(*final(graph)) == walks_off(
            graph_incoming(*old(graph)),
            graph_edges(*old(graph)),
            node,
        ),
{
    graph.remove_node(NodeIndex::new(node as usize));
}

/// `StableGraph::node_indices`: the numbers of the nodes, in ascending order.
#[verifier::external_body]
pub(crate) fn node_indices(graph: &StableGraph<Node, Edge, Directed, u32>) -> (indices: Vec<u32>)
    ensures
        ascending(indices@),
        indices@.to_set() == graph_nodes(*graph).dom(),
{
    graph.node_indices().map(|index| index.index() as u32).collect()
}

/// `StableGraph::node_weight`: the node going by a number.
#[verifier::external_body]
pub(crate) fn node(graph: &StableGraph<Node, Edge, Directed, u32>, index: u32) -> (node: &Node)
    requires
        graph_nodes(*graph).dom().contains(index),
    ensures
        *node == graph_nodes(*graph)[index],
{
    graph.node_weight(NodeIndex::new(index as usize)).unwrap()
}

/// `StableGraph::edges_directed` with outgoing edges: the edges leading from a node, in walking order,
/// each as its number, its target and what it carries.
#[verifier::external_body]
pub(crate) fn edges_from(graph: &StableGraph<Node, Edge, Directed, u32>, index: u32) -> (edges: Vec<
    (u32, u32, Edge),
>)
    requires
        graph_nodes(*graph).dom().contains(index),
    ensures
        edges@.len() == graph_outgoing(*graph)[index].len(),
        forall|k: int|
            0 <= k < edges@.len() ==> (#[trigger] edges@[k]).0 == graph_outgoing(*graph)[index][k]
                && edges@[k].1 == graph_edges(*graph)[edges@[k].0].1 && edges@[k].2 == graph_edges(
                *graph,
            )[edges@[k].0].2,
{
    graph.edges_directed(
        NodeIndex::new(index as usize),
        rustworkx_core::petgraph::Direction::Outgoing,
    ).map(|edge| (edge.id().index() as u32, edge.target().index() as u32, *edge.weight())).collect()
}

/// `StableGraph::edges_directed` with incoming edges: the edges leading to a node, in walking order, each
/// as its number, its source and what it carries.
#[verifier::external_body]
pub(crate) fn edges_to(graph: &StableGraph<Node, Edge, Directed, u32>, index: u32) -> (edges: Vec<
    (u32, u32, Edge),
>)
    requires
        graph_nodes(*graph).dom().contains(index),
    ensures
        edges@.len() == graph_incoming(*graph)[index].len(),
        forall|k: int|
            0 <= k < edges@.len() ==> (#[trigger] edges@[k]).0 == graph_incoming(*graph)[index][k]
                && edges@[k].1 == graph_edges(*graph)[edges@[k].0].0 && edges@[k].2 == graph_edges(
                *graph,
            )[edges@[k].0].2,
{
    graph.edges_directed(
        NodeIndex::new(index as usize),
        rustworkx_core::petgraph::Direction::Incoming,
    ).map(|edge| (edge.id().index() as u32, edge.source().index() as u32, *edge.weight())).collect()
}

/// `IntoEdgeReferences::edge_references` of a stable graph: every edge, in ascending order of its number,
/// each as its number, its source, its target and what it carries.
#[verifier::external_body]
pub(crate) fn edge_references(graph: &StableGraph<Node, Edge, Directed, u32>) -> (edges: Vec<
    (u32, u32, u32, Edge),
>)
    ensures
        ascending(edges@.map_values(|edge: (u32, u32, u32, Edge)| edge.0)),
        edges@.map_values(|edge: (u32, u32, u32, Edge)| edge.0).to_set() == graph_edges(*graph).dom(),
        forall|k: int|
            0 <= k < edges@.len() ==> graph_edges(*graph)[(#[trigger] edges@[k]).0] == (
                edges@[k].1,
                edges@[k].2,
                edges@[k].3,
            ),
{
    graph.edge_references().map(
        |edge|
            (
                edge.id().index() as u32,
                edge.source().index() as u32,
                edge.target().index() as u32,
                *edge.weight(),
            ),
    ).collect()
}

/// `StableGraph::edge_weight_mut`: the edge carries what it is given and leads where it led.
#[verifier::external_body]
pub(crate) fn set_edge(graph: &mut StableGraph<Node, Edge, Directed, u32>, id: u32, edge: Edge)
    requires
        graph_edges(*old(graph)).dom().contains(id),
    ensures
        graph_nodes(*final(graph)) == graph_nodes(*old(graph)),
        graph_edges(*final(graph)) == graph_edges(*old(graph)).insert(
            id,
            (graph_edges(*old(graph))[id].0, graph_edges(*old(graph))[id].1, edge),
        ),
        graph_outgoing(*final(graph)) == graph_outgoing(*old(graph)),
        graph_incoming(*final(graph)) == graph_incoming(*old(graph)),
{
    *graph.edge_weight_mut(EdgeIndex::new(id as usize)).unwrap() = edge;
}

/// `StableGraph::node_count`: how many nodes the graph holds.
#[verifier::external_body]
pub(crate) fn node_count(graph: &StableGraph<Node, Edge, Directed, u32>) -> (count: usize)
    ensures
        count == graph_nodes(*graph).dom().len(),
{
    graph.node_count()
}

/// `StableGraph::edge_count`: how many edges the graph holds.
#[verifier::external_body]
pub(crate) fn edge_count(graph: &StableGraph<Node, Edge, Directed, u32>) -> (count: usize)
    ensures
        count == graph_edges(*graph).dom().len(),
{
    graph.edge_count()
}

/// `rustworkx_core::traversal::descendants`: the nodes that can be reached from a node, itself among
/// them, each once. The order they come in is left unsaid.
#[verifier::external_body]
pub(crate) fn descendants(graph: &StableGraph<Node, Edge, Directed, u32>, index: u32) -> (reached: Vec<
    u32,
>)
    requires
        graph_nodes(*graph).dom().contains(index),
    ensures
        reached@.no_duplicates(),
        forall|other: u32| #[trigger]
            reached@.contains(other) <==> reaches(graph_edges(*graph), index, other),
{
    rustworkx_core::traversal::descendants(graph, NodeIndex::new(index as usize)).map(
        |node| node.index() as u32,
    ).collect()
}

/// `rustworkx_core::traversal::ancestors`: the nodes a node can be reached from, itself among them, each
/// once. The order they come in is left unsaid.
#[verifier::external_body]
pub(crate) fn ancestors(graph: &StableGraph<Node, Edge, Directed, u32>, index: u32) -> (reached: Vec<
    u32,
>)
    requires
        graph_nodes(*graph).dom().contains(index),
    ensures
        reached@.no_duplicates(),
        forall|other: u32| #[trigger]
            reached@.contains(other) <==> reaches(graph_edges(*graph), other, index),
{
    rustworkx_core::traversal::ancestors(graph, NodeIndex::new(index as usize)).map(
        |node| node.index() as u32,
    ).collect()
}

} // verus!
