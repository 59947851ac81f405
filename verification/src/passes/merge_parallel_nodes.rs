//! Merge parallel nodes: sampling graph to sampling graph, in place.
//!
//! Fuses same-generation nodes that share a predecessor, agree on their merge key and cover disjoint
//! qubits, into one wider node.

use vstd::prelude::*;

use crate::collections::IndexMap;
use crate::collections::IndexSet;
use crate::graph;
use crate::partition::beside_parts;
use crate::partition::nested;
use crate::partition::groups_of;
use crate::partition::is_partition;
use crate::partition::total;
use crate::partition::Partition;
use crate::passes::utils::are_generations;
use crate::passes::utils::generation;
use crate::passes::utils::lemma_generations_are_disjoint;
use crate::passes::utils::topological_generations;
use crate::standard_gate::StandardGate;
use crate::virtual_flow_graph::leads;
use crate::virtual_flow_graph::lemma_with_edges;
use crate::virtual_flow_graph::lemma_with_node_wf;
use crate::virtual_flow_graph::lemma_without_node_wf;
use crate::virtual_flow_graph::new_to;
use crate::virtual_flow_graph::with_edges;
use crate::virtual_flow_graph::with_node;
use crate::virtual_flow_graph::without_node;
use crate::virtual_flow_graph::Direction;
use crate::virtual_flow_graph::Edge;
use crate::virtual_flow_graph::GraphModel;
use crate::virtual_flow_graph::Measure;
use crate::virtual_flow_graph::Node;
use crate::virtual_flow_graph::NodeKind;
use crate::virtual_flow_graph::NodeKindModel;
use crate::virtual_flow_graph::NodeModel;
use crate::virtual_flow_graph::Propagate;
use crate::virtual_flow_graph::VirtualFlowGraph;

verus! {

/// What nodes have to agree on to be merged.
#[derive(Clone, Copy, PartialEq, Eq, Structural)]
pub enum MergeKey {
    /// Handedness is part of the key: two conjugations of the same gate in opposite directions are
    /// different operations, so they must not be fused into one wider node.
    Propagate { gate: StandardGate, direction: Direction },
    Measure,
    Reset,
}

/// What a node has to agree on with another to be merged with it, if it can be merged at all.
pub open spec fn key_of(kind: NodeKindModel) -> Option<MergeKey> {
    match kind {
        NodeKindModel::Propagate(propagate) => Some(
            MergeKey::Propagate { gate: propagate.gate, direction: propagate.direction },
        ),
        NodeKindModel::Measure(_) => Some(MergeKey::Measure),
        NodeKindModel::Reset => Some(MergeKey::Reset),
        _ => None,
    }
}

fn merge_key(kind: &NodeKind) -> (key: Option<MergeKey>)
    ensures
        key == key_of(kind@),
{
    match kind {
        NodeKind::Propagate(propagate) => Some(
            MergeKey::Propagate { gate: propagate.gate, direction: propagate.direction },
        ),
        NodeKind::Measure(_) => Some(MergeKey::Measure),
        NodeKind::Reset => Some(MergeKey::Reset),
        _ => None,
    }
}

// --- The merged node ----------------------------------------------------------------------------

/// The qubits of some nodes, one after another.
pub open spec fn merged_qubits(graph: GraphModel, cluster: Seq<u32>) -> Seq<usize>
    decreases cluster.len(),
{
    if cluster.len() == 0 {
        Seq::empty()
    } else {
        merged_qubits(graph, cluster.drop_last()) + graph.nodes[cluster.last()].qubits
    }
}

/// The partitions of some nodes, side by side.
pub open spec fn merged_parts(graph: GraphModel, cluster: Seq<u32>) -> Seq<Seq<usize>>
    decreases cluster.len(),
{
    if cluster.len() == 0 {
        Seq::empty()
    } else {
        beside_parts(
            merged_parts(graph, cluster.drop_last()),
            graph.nodes[cluster.last()].partition,
        )
    }
}

/// The classical bits some measurements write, one after another.
pub open spec fn merged_clbits(graph: GraphModel, cluster: Seq<u32>) -> Seq<usize>
    decreases cluster.len(),
{
    if cluster.len() == 0 {
        Seq::empty()
    } else {
        merged_clbits(graph, cluster.drop_last()) + (match graph.nodes[cluster.last()].kind {
            NodeKindModel::Measure(clbits) => clbits,
            _ => Seq::empty(),
        })
    }
}

/// The one node some nodes become.
pub open spec fn merged_node(graph: GraphModel, cluster: Seq<u32>) -> NodeModel {
    NodeModel {
        qubits: merged_qubits(graph, cluster),
        partition: merged_parts(graph, cluster),
        kind: match graph.nodes[cluster[0]].kind {
            NodeKindModel::Measure(_) => NodeKindModel::Measure(merged_clbits(graph, cluster)),
            kind => kind,
        },
    }
}

/// Whether nodes can be merged into one: at least one, all there, none twice, all agreeing on the key.
pub open spec fn mergeable(graph: GraphModel, cluster: Seq<u32>) -> bool {
    &&& cluster.len() > 0
    &&& cluster.no_duplicates()
    &&& forall|k: int| 0 <= k < cluster.len() ==> graph.nodes.dom().contains(#[trigger] cluster[k])
    &&& key_of(graph.nodes[cluster[0]].kind) is Some
    &&& forall|k: int|
        0 <= k < cluster.len() ==> key_of(graph.nodes[#[trigger] cluster[k]].kind) == key_of(
            graph.nodes[cluster[0]].kind,
        )
}

proof fn lemma_merged_widths_agree(graph: GraphModel, cluster: Seq<u32>)
    requires
        graph.grouped(),
        forall|k: int|
            0 <= k < cluster.len() ==> graph.nodes.dom().contains(#[trigger] cluster[k]),
    ensures
        total(merged_parts(graph, cluster)) == merged_qubits(graph, cluster).len(),
    decreases cluster.len(),
{
    if cluster.len() > 0 {
        let front = cluster.drop_last();
        assert forall|k: int| 0 <= k < front.len() implies graph.nodes.dom().contains(
            #[trigger] front[k],
        ) by {
            assert(cluster[k] == front[k]);
        }
        lemma_merged_widths_agree(graph, front);
        let last = cluster.last();
        assert(graph.nodes.dom().contains(cluster[cluster.len() - 1]));
        let left = merged_parts(graph, front);
        let right = graph.nodes[last].partition;
        crate::partition::lemma_moved_total(right, total(left));
        crate::partition::lemma_total_add(
            left,
            crate::partition::moved_parts(right, total(left)),
        );
    }
}

/// Whether a node does to its qubits what another does to its own: both conjugate by the same gate the same way
/// round, or both measure, or both reset.
pub open spec fn does_alike(one: NodeKindModel, other: NodeKindModel) -> bool {
    match (one, other) {
        (NodeKindModel::Propagate(left), NodeKindModel::Propagate(right)) => left.gate == right.gate
            && left.direction == right.direction,
        (NodeKindModel::Measure(_), NodeKindModel::Measure(_)) => true,
        (NodeKindModel::Reset, NodeKindModel::Reset) => true,
        _ => false,
    }
}

/// How many qubits some nodes have, together.
pub open spec fn width_of(graph: GraphModel, cluster: Seq<u32>) -> nat
    decreases cluster.len(),
{
    if cluster.len() == 0 {
        0
    } else {
        width_of(graph, cluster.drop_last()) + graph.nodes[cluster.last()].qubits.len()
    }
}

/// How many groups the qubits of some nodes are in, together.
pub open spec fn groups_in(graph: GraphModel, cluster: Seq<u32>) -> nat
    decreases cluster.len(),
{
    if cluster.len() == 0 {
        0
    } else {
        groups_in(graph, cluster.drop_last()) + graph.nodes[cluster.last()].partition.len()
    }
}

/// A merged node does what its members did, where they did it: it acts as every one of them does, its qubits are
/// theirs side by side, and each member's groups of qubits are still groups, in the order they were.
pub proof fn lemma_merged_node_does_what_its_members_did(
    graph: GraphModel,
    cluster: Seq<u32>,
    k: int,
)
    requires
        graph.grouped(),
        mergeable(graph, cluster),
        width_of(graph, cluster) <= usize::MAX,
        forall|m: int|
            0 <= m < cluster.len() ==> is_partition(graph.nodes[#[trigger] cluster[m]].partition),
        0 <= k < cluster.len(),
    ensures
        ({
            let merged = merged_node(graph, cluster);
            let member = graph.nodes[cluster[k]];
            let from = width_of(graph, cluster.take(k)) as int;
            let first = groups_in(graph, cluster.take(k)) as int;
            &&& does_alike(merged.kind, member.kind)
            &&& key_of(merged.kind) == key_of(member.kind)
            &&& merged.qubits.len() == width_of(graph, cluster)
            &&& merged.partition.len() == groups_in(graph, cluster)
            &&& from + member.qubits.len() <= merged.qubits.len()
            &&& merged.qubits.subrange(from, from + member.qubits.len()) == member.qubits
            &&& first + member.partition.len() <= merged.partition.len()
            &&& groups_of(merged.partition, merged.qubits).subrange(
                first,
                first + member.partition.len(),
            ) == groups_of(member.partition, member.qubits)
        }),
{
    assert(key_of(graph.nodes[cluster[k]].kind) == key_of(graph.nodes[cluster[0]].kind));
    lemma_members_side_by_side(graph, cluster, k);
}

/// A merged measurement writes what its members wrote, one member after another.
pub proof fn lemma_merged_measurement_writes_its_members_bits(
    graph: GraphModel,
    cluster: Seq<u32>,
    k: int,
)
    requires
        mergeable(graph, cluster),
        forall|m: int|
            0 <= m < cluster.len() ==> (graph.nodes[#[trigger] cluster[m]].kind matches NodeKindModel::Measure(
                clbits,
            ) && clbits.len() == graph.nodes[cluster[m]].qubits.len()),
        0 <= k < cluster.len(),
    ensures
        ({
            let member = graph.nodes[cluster[k]];
            let from = width_of(graph, cluster.take(k)) as int;
            &&& merged_node(graph, cluster).kind matches NodeKindModel::Measure(clbits)
            &&& clbits.len() == width_of(graph, cluster)
            &&& from + member.qubits.len() <= clbits.len()
            &&& clbits.subrange(from, from + member.qubits.len()) == member.kind->Measure_0
        }),
{
    assert(graph.nodes[cluster[0]].kind is Measure);
    lemma_bits_side_by_side(graph, cluster, k);
}

proof fn lemma_bits_side_by_side(graph: GraphModel, cluster: Seq<u32>, k: int)
    requires
        forall|m: int|
            0 <= m < cluster.len() ==> (graph.nodes[#[trigger] cluster[m]].kind matches NodeKindModel::Measure(
                clbits,
            ) && clbits.len() == graph.nodes[cluster[m]].qubits.len()),
        0 <= k < cluster.len() || cluster.len() == 0,
    ensures
        merged_clbits(graph, cluster).len() == width_of(graph, cluster),
        cluster.len() > 0 ==> ({
            let member = graph.nodes[cluster[k]];
            let from = width_of(graph, cluster.take(k)) as int;
            &&& from + member.qubits.len() <= width_of(graph, cluster)
            &&& merged_clbits(graph, cluster).subrange(from, from + member.qubits.len())
                == member.kind->Measure_0
        }),
    decreases cluster.len(),
{
    if cluster.len() > 0 {
        let front = cluster.drop_last();
        let last = cluster.len() - 1;
        assert forall|m: int| 0 <= m < front.len() implies (
        graph.nodes[#[trigger] front[m]].kind matches NodeKindModel::Measure(clbits) && clbits.len()
            == graph.nodes[front[m]].qubits.len()) by {
            assert(front[m] == cluster[m]);
        }
        assert(cluster[last] == cluster.last());
        let member = graph.nodes[cluster[k]];
        let from = width_of(graph, cluster.take(k)) as int;
        if k < last {
            lemma_bits_side_by_side(graph, front, k);
            assert(front.take(k) =~= cluster.take(k));
            assert(front[k] == cluster[k]);
            assert(merged_clbits(graph, cluster).subrange(from, from + member.qubits.len())
                =~= merged_clbits(graph, front).subrange(from, from + member.qubits.len()));
        } else {
            lemma_bits_side_by_side(graph, front, 0);
            assert(cluster.take(k) =~= front);
            assert(merged_clbits(graph, cluster).subrange(from, from + member.qubits.len())
                =~= member.kind->Measure_0);
        }
    }
}

proof fn lemma_members_side_by_side(graph: GraphModel, cluster: Seq<u32>, k: int)
    requires
        graph.grouped(),
        width_of(graph, cluster) <= usize::MAX,
        forall|m: int|
            0 <= m < cluster.len() ==> graph.nodes.dom().contains(#[trigger] cluster[m])
                && is_partition(graph.nodes[cluster[m]].partition),
        0 <= k < cluster.len() || cluster.len() == 0,
    ensures
        merged_qubits(graph, cluster).len() == width_of(graph, cluster),
        merged_parts(graph, cluster).len() == groups_in(graph, cluster),
        total(merged_parts(graph, cluster)) == width_of(graph, cluster),
        forall|p: int, i: int|
            0 <= p < merged_parts(graph, cluster).len() && 0 <= i < merged_parts(
                graph,
                cluster,
            )[p].len() ==> (#[trigger] merged_parts(graph, cluster)[p][i]) < width_of(graph, cluster),
        cluster.len() > 0 ==> ({
            let qubits = merged_qubits(graph, cluster);
            let parts = merged_parts(graph, cluster);
            let member = graph.nodes[cluster[k]];
            let from = width_of(graph, cluster.take(k)) as int;
            let first = groups_in(graph, cluster.take(k)) as int;
            &&& from + member.qubits.len() <= qubits.len()
            &&& qubits.subrange(from, from + member.qubits.len()) == member.qubits
            &&& first + member.partition.len() <= parts.len()
            &&& groups_of(parts, qubits).subrange(first, first + member.partition.len())
                == groups_of(member.partition, member.qubits)
        }),
    decreases cluster.len(),
{
    if cluster.len() > 0 {
        let front = cluster.drop_last();
        let last = cluster.len() - 1;
        assert forall|m: int| 0 <= m < front.len() implies graph.nodes.dom().contains(
            #[trigger] front[m],
        ) && is_partition(graph.nodes[front[m]].partition) by {
            assert(front[m] == cluster[m]);
        }
        assert(cluster[last] == cluster.last());
        let node = graph.nodes[cluster[last]];
        lemma_members_side_by_side(graph, front, if k < last {
            k
        } else {
            0
        });
        let few = merged_qubits(graph, front);
        let qubits = merged_qubits(graph, cluster);
        let less = merged_parts(graph, front);
        let parts = merged_parts(graph, cluster);
        let wide = width_of(graph, front);
        crate::partition::lemma_moved_total(node.partition, wide);
        crate::partition::lemma_total_add(
            less,
            crate::partition::moved_parts(node.partition, wide),
        );
        assert forall|p: int, i: int| 0 <= p < node.partition.len() && 0 <= i
            < node.partition[p].len() implies (#[trigger] node.partition[p][i])
            < node.qubits.len() && parts[less.len() + p][i] == node.partition[p][i] + wide by {}
        assert forall|p: int, i: int| 0 <= p < parts.len() && 0 <= i < parts[p].len() implies (
        #[trigger] parts[p][i]) < width_of(graph, cluster) by {
            if p < less.len() {
                assert(parts[p] == less[p]);
                assert(less[p][i] < wide);
            } else {
                let q = p - less.len();
                assert(node.partition[q][i] < node.qubits.len());
            }
        }
        let member = graph.nodes[cluster[k]];
        let from = width_of(graph, cluster.take(k)) as int;
        let first = groups_in(graph, cluster.take(k)) as int;
        let groups = groups_of(parts, qubits);
        if k < last {
            assert(front.take(k) =~= cluster.take(k));
            assert(front[k] == cluster[k]);
            assert(qubits.subrange(from, from + member.qubits.len()) =~= few.subrange(
                from,
                from + member.qubits.len(),
            ));
            let before = groups_of(less, few);
            assert forall|p: int| 0 <= p < less.len() implies #[trigger] groups[p] == before[p] by {
                assert(parts[p] == less[p]);
                assert forall|i: int| 0 <= i < less[p].len() implies #[trigger] groups[p][i]
                    == before[p][i] by {
                    assert(less[p][i] < wide);
                }
                assert(groups[p] =~= before[p]);
            }
            assert(groups.subrange(first, first + member.partition.len()) =~= before.subrange(
                first,
                first + member.partition.len(),
            ));
        } else {
            assert(cluster.take(k) =~= front);
            assert(qubits.subrange(from, from + member.qubits.len()) =~= member.qubits);
            let own = groups_of(node.partition, node.qubits);
            assert forall|p: int| 0 <= p < own.len() implies #[trigger] own[p] == groups[first + p] by {
                assert forall|i: int| 0 <= i < own[p].len() implies #[trigger] own[p][i]
                    == groups[first + p][i] by {
                    assert(node.partition[p][i] < node.qubits.len());
                    assert(parts[first + p][i] == node.partition[p][i] + wide);
                }
                assert(own[p] =~= groups[first + p]);
            }
            assert(groups.subrange(first, first + member.partition.len()) =~= own);
        }
    }
}

fn build_merged_node(vfg: &VirtualFlowGraph, cluster: &Vec<u32>) -> (node: Node)
    requires
        vfg@.grouped(),
        mergeable(vfg@, cluster@),
    ensures
        node@ == merged_node(vfg@, cluster@),
        node@.qubits.len() == total(node@.partition),
{
    let ghost graph = vfg@;
    let mut qubits: Vec<usize> = Vec::new();
    let mut partition = Partition::singletons(0);
    let mut clbits: Vec<usize> = Vec::new();
    assert(partition@ =~= Seq::<Seq<usize>>::empty());
    let mut i: usize = 0;
    while i < cluster.len()
        invariant
            i <= cluster.len(),
            graph == vfg@,
            graph.grouped(),
            mergeable(graph, cluster@),
            qubits@ == merged_qubits(graph, cluster@.take(i as int)),
            partition@ == merged_parts(graph, cluster@.take(i as int)),
            clbits@ == merged_clbits(graph, cluster@.take(i as int)),
        decreases cluster.len() - i,
    {
        let ghost front = cluster@.take(i as int);
        let ghost next = cluster@.take(i + 1);
        proof {
            assert(next.drop_last() =~= front);
            assert(next.last() == cluster@[i as int]);
            assert(graph.nodes.dom().contains(cluster@[i as int]));
            assert forall|k: int| 0 <= k < front.len() implies graph.nodes.dom().contains(
                #[trigger] front[k],
            ) by {
                assert(cluster@[k] == front[k]);
            }
            lemma_merged_widths_agree(graph, front);
        }
        let node = vfg.node(cluster[i]);
        extend(&mut qubits, &node.qubits);
        let width: usize = qubits.len();
        partition = partition.beside(&node.partition);
        if let NodeKind::Measure(measure) = &node.kind {
            extend(&mut clbits, &measure.clbit_indices);
        } else {
            assert(clbits@ =~= merged_clbits(graph, next));
        }
        i += 1;
    }
    proof {
        assert(cluster@.take(i as int) =~= cluster@);
        lemma_merged_widths_agree(graph, cluster@);
        assert(graph.nodes.dom().contains(cluster@[0]));
    }
    let kind = match &vfg.node(cluster[0]).kind {
        NodeKind::Propagate(propagate) => NodeKind::Propagate(
            Propagate { gate: propagate.gate, direction: propagate.direction },
        ),
        NodeKind::Measure(_) => NodeKind::Measure(Measure { clbit_indices: clbits }),
        _ => NodeKind::Reset,
    };
    Node::new(qubits, partition, kind)
}

fn extend(list: &mut Vec<usize>, more: &Vec<usize>)
    ensures
        final(list)@ == old(list)@ + more@,
{
    let ghost before = list@;
    let mut i: usize = 0;
    assert(before + more@.take(0) =~= before);
    while i < more.len()
        invariant
            i <= more.len(),
            list@ == before + more@.take(i as int),
        decreases more.len() - i,
    {
        list.push(more[i]);
        assert(list@ =~= before + more@.take(i + 1));
        i += 1;
    }
    assert(more@.take(i as int) =~= more@);
}

// --- Rewiring -----------------------------------------------------------------------------------

/// The edges a merged node takes over so far: each as its ends and what it carries, the nodes already led
/// from and to, and the edge each stands in for.
#[verifier::ext_equal]
pub struct Rewiring {
    pub edges: Seq<(u32, u32, Edge)>,
    pub sources: Set<u32>,
    pub targets: Set<u32>,
    pub replaced: Seq<u32>,
}

/// Taking over edges that lead to a member: one from each node outside the cluster, the first met.
pub open spec fn take_incoming(
    graph: GraphModel,
    cluster: Seq<u32>,
    index: u32,
    ids: Seq<u32>,
    given: Rewiring,
) -> Rewiring
    decreases ids.len(),
{
    if ids.len() == 0 {
        given
    } else {
        let so_far = take_incoming(graph, cluster, index, ids.drop_last(), given);
        let (source, _, edge) = graph.edges[ids.last()];
        if cluster.contains(source) || so_far.sources.contains(source) {
            so_far
        } else {
            Rewiring {
                edges: so_far.edges.push((source, index, edge)),
                sources: so_far.sources.insert(source),
                replaced: so_far.replaced.push(ids.last()),
                ..so_far
            }
        }
    }
}

/// Taking over edges that lead from a member: one to each node outside the cluster, the first met.
pub open spec fn take_outgoing(
    graph: GraphModel,
    cluster: Seq<u32>,
    index: u32,
    ids: Seq<u32>,
    given: Rewiring,
) -> Rewiring
    decreases ids.len(),
{
    if ids.len() == 0 {
        given
    } else {
        let so_far = take_outgoing(graph, cluster, index, ids.drop_last(), given);
        let (_, target, edge) = graph.edges[ids.last()];
        if cluster.contains(target) || so_far.targets.contains(target) {
            so_far
        } else {
            Rewiring {
                edges: so_far.edges.push((index, target, edge)),
                targets: so_far.targets.insert(target),
                replaced: so_far.replaced.push(ids.last()),
                ..so_far
            }
        }
    }
}

/// The edges a merged node takes over from the first members of its cluster.
pub open spec fn rewired(graph: GraphModel, cluster: Seq<u32>, index: u32, count: nat) -> Rewiring
    decreases count,
{
    if count == 0 {
        Rewiring {
            edges: Seq::empty(),
            sources: Set::empty(),
            targets: Set::empty(),
            replaced: Seq::empty(),
        }
    } else {
        let member = cluster[count - 1];
        let so_far = rewired(graph, cluster, index, (count - 1) as nat);
        take_outgoing(
            graph,
            cluster,
            index,
            graph.outgoing[member],
            take_incoming(graph, cluster, index, graph.incoming[member], so_far),
        )
    }
}

/// A graph once nodes have left it, one after another.
pub open spec fn without_nodes(graph: GraphModel, nodes: Seq<u32>) -> GraphModel
    decreases nodes.len(),
{
    if nodes.len() == 0 {
        graph
    } else {
        without_node(without_nodes(graph, nodes.drop_last()), nodes.last())
    }
}

/// Whether a graph is another with a cluster contracted into the node going by `index`: the merged node
/// joins, then the edges it takes over join under the given numbers, then the members leave.
pub open spec fn contracted_as(
    before: GraphModel,
    cluster: Seq<u32>,
    index: u32,
    ids: Seq<u32>,
    after: GraphModel,
) -> bool {
    let edges = rewired(before, cluster, index, cluster.len()).edges;
    &&& !before.nodes.dom().contains(index)
    &&& new_to(before.edges.dom(), ids)
    &&& ids.len() == edges.len()
    &&& after == without_nodes(
        with_edges(with_node(before, index, merged_node(before, cluster)), ids, edges),
        cluster,
    )
}

/// Whether a graph is another with a cluster contracted into one node.
pub open spec fn contracted(before: GraphModel, cluster: Seq<u32>, after: GraphModel) -> bool {
    exists|index: u32, ids: Seq<u32>| #[trigger] contracted_as(before, cluster, index, ids, after)
}

/// The edges at some nodes.
pub open spec fn edges_touching(graph: GraphModel, nodes: Seq<u32>) -> Set<u32> {
    Set::new(
        |id: u32|
            graph.edges.dom().contains(id) && (nodes.contains(graph.edges[id].0) || nodes.contains(
                graph.edges[id].1,
            )),
    )
}

/// Whether numbers are left for contracting a cluster: for the node it becomes, and once more for the edges at
/// it, which leave only when those that take their place are there.
pub open spec fn room_to_contract(graph: GraphModel, cluster: Seq<u32>) -> bool {
    &&& graph.nodes.dom().len() < u32::MAX
    &&& graph.edges.dom().len() + edges_touching(graph, cluster).len() <= u32::MAX
}

/// Whether an edge taken over stands in for one that leads from outside to a member, or from a member to
/// outside.
spec fn stands_in(
    graph: GraphModel,
    cluster: Seq<u32>,
    index: u32,
    edge: (u32, u32, Edge),
    id: u32,
) -> bool {
    let (from, to, _) = graph.edges[id];
    &&& graph.edges.dom().contains(id)
    &&& graph.nodes.dom().contains(from)
    &&& graph.nodes.dom().contains(to)
    &&& if cluster.contains(to) {
        !cluster.contains(from) && edge.0 == from && edge.1 == index
    } else {
        cluster.contains(from) && edge.0 == index && edge.1 == to
    }
}

/// What holds of a rewiring under way: each edge taken over stands in for one at a member, no two for the same.
spec fn rewiring_wf(graph: GraphModel, cluster: Seq<u32>, index: u32, state: Rewiring) -> bool {
    &&& state.edges.len() == state.replaced.len()
    &&& state.replaced.no_duplicates()
    &&& forall|k: int|
        0 <= k < state.edges.len() ==> {
            let id = state.replaced[k];
            &&& stands_in(graph, cluster, index, #[trigger] state.edges[k], id)
            &&& if cluster.contains(graph.edges[id].1) {
                state.sources.contains(graph.edges[id].0)
            } else {
                state.targets.contains(graph.edges[id].1)
            }
        }
}

proof fn lemma_take_incoming_wf(
    graph: GraphModel,
    cluster: Seq<u32>,
    index: u32,
    member: u32,
    count: int,
    given: Rewiring,
)
    requires
        graph.wf(),
        graph.nodes.dom().contains(member),
        cluster.contains(member),
        0 <= count <= graph.incoming[member].len(),
        rewiring_wf(graph, cluster, index, given),
    ensures
        rewiring_wf(
            graph,
            cluster,
            index,
            take_incoming(graph, cluster, index, graph.incoming[member].take(count), given),
        ),
    decreases count,
{
    let list = graph.incoming[member];
    if count > 0 {
        lemma_take_incoming_wf(graph, cluster, index, member, count - 1, given);
        let ids = list.take(count);
        assert(ids.drop_last() =~= list.take(count - 1));
        let before = take_incoming(graph, cluster, index, list.take(count - 1), given);
        let id = list[count - 1];
        assert(ids.last() == id);
        assert(list.contains(id));
        assert(graph.edges.dom().contains(id) && graph.edges[id].1 == member);
        let source = graph.edges[id].0;
        if !cluster.contains(source) && !before.sources.contains(source) {
            let after = take_incoming(graph, cluster, index, ids, given);
            assert(!before.replaced.contains(id)) by {
                if before.replaced.contains(id) {
                    let k = before.replaced.index_of(id);
                    assert(stands_in(graph, cluster, index, before.edges[k], before.replaced[k]));
                }
            }
            assert(after.replaced =~= before.replaced.push(id));
            assert forall|k: int| 0 <= k < after.edges.len() implies {
                let other = after.replaced[k];
                &&& stands_in(graph, cluster, index, #[trigger] after.edges[k], other)
                &&& if cluster.contains(graph.edges[other].1) {
                    after.sources.contains(graph.edges[other].0)
                } else {
                    after.targets.contains(graph.edges[other].1)
                }
            } by {
                if k < before.edges.len() {
                    assert(after.edges[k] == before.edges[k]);
                    assert(after.replaced[k] == before.replaced[k]);
                }
            }
        }
    } else {
        assert(list.take(0) =~= Seq::<u32>::empty());
    }
}

proof fn lemma_take_outgoing_wf(
    graph: GraphModel,
    cluster: Seq<u32>,
    index: u32,
    member: u32,
    count: int,
    given: Rewiring,
)
    requires
        graph.wf(),
        graph.nodes.dom().contains(member),
        cluster.contains(member),
        0 <= count <= graph.outgoing[member].len(),
        rewiring_wf(graph, cluster, index, given),
    ensures
        rewiring_wf(
            graph,
            cluster,
            index,
            take_outgoing(graph, cluster, index, graph.outgoing[member].take(count), given),
        ),
    decreases count,
{
    let list = graph.outgoing[member];
    if count > 0 {
        lemma_take_outgoing_wf(graph, cluster, index, member, count - 1, given);
        let ids = list.take(count);
        assert(ids.drop_last() =~= list.take(count - 1));
        let before = take_outgoing(graph, cluster, index, list.take(count - 1), given);
        let id = list[count - 1];
        assert(ids.last() == id);
        assert(list.contains(id));
        assert(graph.edges.dom().contains(id) && graph.edges[id].0 == member);
        let target = graph.edges[id].1;
        if !cluster.contains(target) && !before.targets.contains(target) {
            let after = take_outgoing(graph, cluster, index, ids, given);
            assert(!before.replaced.contains(id)) by {
                if before.replaced.contains(id) {
                    let k = before.replaced.index_of(id);
                    assert(stands_in(graph, cluster, index, before.edges[k], before.replaced[k]));
                }
            }
            assert(after.replaced =~= before.replaced.push(id));
            assert forall|k: int| 0 <= k < after.edges.len() implies {
                let other = after.replaced[k];
                &&& stands_in(graph, cluster, index, #[trigger] after.edges[k], other)
                &&& if cluster.contains(graph.edges[other].1) {
                    after.sources.contains(graph.edges[other].0)
                } else {
                    after.targets.contains(graph.edges[other].1)
                }
            } by {
                if k < before.edges.len() {
                    assert(after.edges[k] == before.edges[k]);
                    assert(after.replaced[k] == before.replaced[k]);
                }
            }
        }
    } else {
        assert(list.take(0) =~= Seq::<u32>::empty());
    }
}

/// The edges at neither of a cluster's members.
spec fn edges_apart(graph: GraphModel, cluster: Seq<u32>) -> Set<u32> {
    graph.edges.dom().difference(edges_touching(graph, cluster))
}

/// No more edges are taken over than there are at the members.
proof fn lemma_rewiring_bound(graph: GraphModel, cluster: Seq<u32>, index: u32, state: Rewiring)
    requires
        graph.wf(),
        rewiring_wf(graph, cluster, index, state),
    ensures
        edges_touching(graph, cluster).finite(),
        edges_apart(graph, cluster).finite(),
        state.edges.len() <= edges_touching(graph, cluster).len(),
        edges_apart(graph, cluster).len() + edges_touching(graph, cluster).len()
            == graph.edges.dom().len(),
{
    let dom = graph.edges.dom();
    let there = edges_touching(graph, cluster);
    let apart = edges_apart(graph, cluster);
    let gone = state.replaced.to_set();
    vstd::set_lib::lemma_len_subset(there, dom);
    vstd::set_lib::lemma_len_subset(apart, dom);
    state.replaced.unique_seq_to_set();
    assert(gone.subset_of(there)) by {
        assert forall|id: u32| gone.contains(id) implies there.contains(id) by {
            let k = state.replaced.index_of(id);
            assert(stands_in(graph, cluster, index, state.edges[k], state.replaced[k]));
        }
    }
    vstd::set_lib::lemma_len_subset(gone, there);
    vstd::set_lib::lemma_set_disjoint_lens(apart, there);
    assert(apart + there =~= dom);
}

/// Those of some numbers that go with an edge at one of some nodes.
spec fn picked(list: Seq<u32>, edges: Seq<(u32, u32, Edge)>, nodes: Seq<u32>) -> Set<u32>
    decreases edges.len(),
{
    if edges.len() == 0 || list.len() != edges.len() {
        Set::empty()
    } else {
        let before = picked(list.drop_last(), edges.drop_last(), nodes);
        if nodes.contains(edges.last().0) || nodes.contains(edges.last().1) {
            before.insert(list.last())
        } else {
            before
        }
    }
}

proof fn lemma_picked(list: Seq<u32>, edges: Seq<(u32, u32, Edge)>, nodes: Seq<u32>)
    requires
        list.len() == edges.len(),
    ensures
        picked(list, edges, nodes).finite(),
        forall|id: u32| #[trigger]
            picked(list, edges, nodes).contains(id) <==> exists|k: int|
                #![trigger edges[k]]
                0 <= k < edges.len() && list[k] == id && (nodes.contains(edges[k].0)
                    || nodes.contains(edges[k].1)),
    decreases edges.len(),
{
    if edges.len() > 0 {
        let last = edges.len() - 1;
        let few = list.drop_last();
        let less = edges.drop_last();
        lemma_picked(few, less, nodes);
        assert(edges[last] == edges.last() && list[last] == list.last());
        assert forall|id: u32| #[trigger] picked(list, edges, nodes).contains(id) <==> exists|k: int|
            #![trigger edges[k]]
            0 <= k < edges.len() && list[k] == id && (nodes.contains(edges[k].0) || nodes.contains(
                edges[k].1,
            )) by {
            if picked(few, less, nodes).contains(id) {
                let k = choose|k: int|
                    #![trigger less[k]]
                    0 <= k < less.len() && few[k] == id && (nodes.contains(less[k].0)
                        || nodes.contains(less[k].1));
                assert(edges[k] == less[k] && list[k] == few[k]);
            }
            if exists|k: int|
                #![trigger edges[k]]
                0 <= k < edges.len() && list[k] == id && (nodes.contains(edges[k].0)
                    || nodes.contains(edges[k].1)) {
                let k = choose|k: int|
                    #![trigger edges[k]]
                    0 <= k < edges.len() && list[k] == id && (nodes.contains(edges[k].0)
                        || nodes.contains(edges[k].1));
                if k < last {
                    assert(edges[k] == less[k] && list[k] == few[k]);
                }
            }
        }
    }
}

/// As many are picked of one list as of another, if neither repeats.
proof fn lemma_picked_alike(
    one: Seq<u32>,
    other: Seq<u32>,
    edges: Seq<(u32, u32, Edge)>,
    nodes: Seq<u32>,
)
    requires
        one.len() == edges.len(),
        other.len() == edges.len(),
        one.no_duplicates(),
        other.no_duplicates(),
    ensures
        picked(one, edges, nodes).len() == picked(other, edges, nodes).len(),
    decreases edges.len(),
{
    if edges.len() > 0 {
        let last = edges.len() - 1;
        lemma_picked_alike(one.drop_last(), other.drop_last(), edges.drop_last(), nodes);
        lemma_picked(one.drop_last(), edges.drop_last(), nodes);
        lemma_picked(other.drop_last(), edges.drop_last(), nodes);
        assert(!picked(one.drop_last(), edges.drop_last(), nodes).contains(one.last())) by {
            assert forall|k: int| 0 <= k < last implies one.drop_last()[k] != one.last() by {
                assert(one[k] != one[last]);
            }
        }
        assert(!picked(other.drop_last(), edges.drop_last(), nodes).contains(other.last())) by {
            assert forall|k: int| 0 <= k < last implies other.drop_last()[k] != other.last() by {
                assert(other[k] != other[last]);
            }
        }
    }
}

/// Contracting a cluster leaves no more edges at nodes outside it than there were.
proof fn lemma_touching_shrinks(
    before: GraphModel,
    cluster: Seq<u32>,
    index: u32,
    state: Rewiring,
    ids: Seq<u32>,
    after: GraphModel,
    nodes: Seq<u32>,
)
    requires
        before.wf(),
        rewiring_wf(before, cluster, index, state),
        ids.len() == state.edges.len(),
        new_to(before.edges.dom(), ids),
        !before.nodes.dom().contains(index),
        forall|k: int|
            0 <= k < nodes.len() ==> before.nodes.dom().contains(#[trigger] nodes[k])
                && !cluster.contains(nodes[k]),
        forall|id: u32| #[trigger]
            after.edges.dom().contains(id) ==> (edges_apart(before, cluster).contains(id)
                && after.edges[id] == before.edges[id]) || (exists|k: int|
                #![trigger state.edges[k]]
                0 <= k < ids.len() && ids[k] == id && after.edges[id] == state.edges[k]),
    ensures
        edges_touching(after, nodes).finite(),
        edges_touching(before, nodes).finite(),
        edges_touching(after, nodes).len() <= edges_touching(before, nodes).len(),
{
    let was = edges_touching(before, nodes);
    let is = edges_touching(after, nodes);
    let stay = was.intersect(edges_apart(before, cluster));
    let fresh = picked(ids, state.edges, nodes);
    let gone = picked(state.replaced, state.edges, nodes);
    lemma_picked(ids, state.edges, nodes);
    lemma_picked(state.replaced, state.edges, nodes);
    lemma_picked_alike(ids, state.replaced, state.edges, nodes);
    assert(was.subset_of(before.edges.dom()));
    vstd::set_lib::lemma_len_subset(was, before.edges.dom());
    vstd::set_lib::lemma_len_subset(stay, was);
    assert(is.subset_of(stay.union(fresh))) by {
        assert forall|id: u32| is.contains(id) implies stay.union(fresh).contains(id) by {
            assert(after.edges.dom().contains(id));
            if !(edges_apart(before, cluster).contains(id) && after.edges[id] == before.edges[id]) {
                let k = choose|k: int|
                    #![trigger state.edges[k]]
                    0 <= k < ids.len() && ids[k] == id && after.edges[id] == state.edges[k];
                assert(fresh.contains(id));
            }
        }
    }
    vstd::set_lib::lemma_len_union(stay, fresh);
    vstd::set_lib::lemma_len_subset(is, stay.union(fresh));
    assert(gone.subset_of(was) && stay.disjoint(gone)) by {
        assert forall|id: u32| gone.contains(id) implies was.contains(id) && !stay.contains(id) by {
            let k = choose|k: int|
                #![trigger state.edges[k]]
                0 <= k < state.edges.len() && state.replaced[k] == id && (nodes.contains(
                    state.edges[k].0,
                ) || nodes.contains(state.edges[k].1));
            assert(stands_in(before, cluster, index, state.edges[k], id));
            assert(!nodes.contains(index)) by {
                if nodes.contains(index) {
                    assert(before.nodes.dom().contains(nodes[nodes.index_of(index)]));
                }
            }
        }
    }
    vstd::set_lib::lemma_set_disjoint_lens(stay, gone);
    assert((stay + gone).subset_of(was));
    vstd::set_lib::lemma_len_subset(stay + gone, was);
}

/// Nodes leaving one after another keep a graph well formed and take the edges at them.
proof fn lemma_without_nodes(graph: GraphModel, nodes: Seq<u32>)
    requires
        graph.wf(),
        nodes.no_duplicates(),
        forall|k: int| 0 <= k < nodes.len() ==> graph.nodes.dom().contains(#[trigger] nodes[k]),
    ensures
        without_nodes(graph, nodes).wf(),
        without_nodes(graph, nodes).nodes.dom().len() == graph.nodes.dom().len() - nodes.len(),
        forall|node: u32| #[trigger]
            without_nodes(graph, nodes).nodes.dom().contains(node) <==> graph.nodes.dom().contains(node)
                && !nodes.contains(node),
        forall|node: u32| #[trigger]
            without_nodes(graph, nodes).nodes.dom().contains(node) ==> without_nodes(
                graph,
                nodes,
            ).nodes[node] == graph.nodes[node],
        forall|id: u32| #[trigger]
            without_nodes(graph, nodes).edges.dom().contains(id) <==> graph.edges.dom().contains(id)
                && !nodes.contains(graph.edges[id].0) && !nodes.contains(graph.edges[id].1),
        forall|id: u32| #[trigger]
            without_nodes(graph, nodes).edges.dom().contains(id) ==> without_nodes(
                graph,
                nodes,
            ).edges[id] == graph.edges[id],
    decreases nodes.len(),
{
    if nodes.len() > 0 {
        let front = nodes.drop_last();
        let last = nodes.last();
        assert(nodes[nodes.len() - 1] == last);
        assert forall|k: int| 0 <= k < front.len() implies graph.nodes.dom().contains(
            #[trigger] front[k],
        ) by {
            assert(nodes[k] == front[k]);
        }
        lemma_without_nodes(graph, front);
        assert(!front.contains(last)) by {
            if front.contains(last) {
                let k = front.index_of(last);
                assert(nodes[k] == nodes[nodes.len() - 1]);
            }
        }
        assert(graph.nodes.dom().contains(nodes[nodes.len() - 1]));
        assert forall|node: u32| nodes.contains(node) <==> front.contains(node) || node == last by {
            if front.contains(node) {
                assert(nodes[front.index_of(node)] == node);
            }
            if nodes.contains(node) && node != last {
                let k = nodes.index_of(node);
                assert(front[k] == node);
            }
        }
        lemma_without_node_wf(without_nodes(graph, front), last);
    }
}

/// Edges that are not at a node change nothing about the edges walked there.
proof fn lemma_with_edges_elsewhere(
    graph: GraphModel,
    ids: Seq<u32>,
    edges: Seq<(u32, u32, Edge)>,
    node: u32,
)
    requires
        ids.len() == edges.len(),
        forall|k: int| 0 <= k < edges.len() ==> (#[trigger] edges[k]).0 != node && edges[k].1 != node,
    ensures
        with_edges(graph, ids, edges).outgoing[node] == graph.outgoing[node],
        with_edges(graph, ids, edges).incoming[node] == graph.incoming[node],
    decreases edges.len(),
{
    if edges.len() > 0 {
        let front = edges.drop_last();
        assert forall|k: int| 0 <= k < front.len() implies (#[trigger] front[k]).0 != node && front[k].1
            != node by {
            assert(edges[k] == front[k]);
        }
        lemma_with_edges_elsewhere(graph, ids.drop_last(), front, node);
        assert(edges[edges.len() - 1].0 != node && edges[edges.len() - 1].1 != node);
    }
}

/// What a rewiring under way has done to the graph.
spec fn rewiring_done(
    before: GraphModel,
    base: GraphModel,
    cluster: Seq<u32>,
    index: u32,
    state: Rewiring,
    ids: Seq<u32>,
    now: GraphModel,
) -> bool {
    &&& rewiring_wf(before, cluster, index, state)
    &&& ids.len() == state.edges.len()
    &&& new_to(base.edges.dom(), ids)
    &&& now == with_edges(base, ids, state.edges)
}

proof fn lemma_rewiring_keeps_members(
    before: GraphModel,
    node: NodeModel,
    cluster: Seq<u32>,
    index: u32,
    state: Rewiring,
    ids: Seq<u32>,
    now: GraphModel,
    member: u32,
)
    requires
        before.wf(),
        !before.nodes.dom().contains(index),
        before.nodes.dom().contains(member),
        cluster.contains(member),
        rewiring_done(before, with_node(before, index, node), cluster, index, state, ids, now),
    ensures
        now.wf(),
        now.nodes == with_node(before, index, node).nodes,
        now.edges.dom().len() == before.edges.dom().len() + ids.len(),
        now.incoming[member] == before.incoming[member],
        now.outgoing[member] == before.outgoing[member],
        forall|id: u32| #[trigger]
            before.edges.dom().contains(id) ==> now.edges[id] == before.edges[id],
{
    let base = with_node(before, index, node);
    lemma_with_node_wf(before, index, node);
    assert forall|k: int| 0 <= k < state.edges.len() implies base.nodes.dom().contains(
        (#[trigger] state.edges[k]).0,
    ) && base.nodes.dom().contains(state.edges[k].1) && state.edges[k].0 != member && state.edges[k].1
        != member by {}
    lemma_with_edges(base, ids, state.edges);
    lemma_with_edges_elsewhere(base, ids, state.edges, member);
}

/// Lead one more edge, in place of one at a member.
fn lead(
    vfg: &mut VirtualFlowGraph,
    from: u32,
    to: u32,
    edge: Edge,
    Ghost(before): Ghost<GraphModel>,
    Ghost(node): Ghost<NodeModel>,
    Ghost(cluster): Ghost<Seq<u32>>,
    Ghost(index): Ghost<u32>,
    Ghost(state): Ghost<Rewiring>,
    Ghost(next): Ghost<Rewiring>,
    Ghost(ids): Ghost<Seq<u32>>,
) -> (id: Ghost<u32>)
    requires
        before.wf(),
        !before.nodes.dom().contains(index),
        cluster.len() > 0,
        before.nodes.dom().contains(cluster[0]),
        before.edges.dom().len() + edges_touching(before, cluster).len() <= u32::MAX,
        rewiring_done(before, with_node(before, index, node), cluster, index, state, ids, old(vfg)@),
        rewiring_wf(before, cluster, index, next),
        next.edges == state.edges.push((from, to, edge)),
    ensures
        rewiring_done(
            before,
            with_node(before, index, node),
            cluster,
            index,
            next,
            ids.push(id@),
            final(vfg)@,
        ),
{
    let ghost base = with_node(before, index, node);
    let ghost now = vfg@;
    proof {
        assert(cluster.contains(cluster[0]));
        lemma_rewiring_keeps_members(before, node, cluster, index, state, ids, now, cluster[0]);
        lemma_rewiring_bound(before, cluster, index, next);
        assert(next.edges[state.edges.len() as int] == (from, to, edge));
        assert(stands_in(
            before,
            cluster,
            index,
            next.edges[state.edges.len() as int],
            next.replaced[state.edges.len() as int],
        ));
    }
    let id = vfg.add_edge(from, to, edge);
    proof {
        let more = ids.push(id);
        assert(more.drop_last() =~= ids);
        assert(next.edges.drop_last() =~= state.edges);
        assert forall|k: int| 0 <= k < state.edges.len() implies base.nodes.dom().contains(
            (#[trigger] state.edges[k]).0,
        ) && base.nodes.dom().contains(state.edges[k].1) by {}
        lemma_with_node_wf(before, index, node);
        lemma_with_edges(base, ids, state.edges);
        assert(!ids.contains(id));
        assert(more.no_duplicates());
    }
    Ghost(id)
}

/// Point the edges at a cluster's members to and from the node they become: one edge for each node
/// outside that leads to it, and one for each it leads to.
#[verifier::rlimit(40)]
fn rewire_edges(
    vfg: &mut VirtualFlowGraph,
    cluster: &Vec<u32>,
    merged_idx: u32,
    Ghost(before): Ghost<GraphModel>,
    Ghost(node): Ghost<NodeModel>,
) -> (numbers: Ghost<Seq<u32>>)
    requires
        before.wf(),
        !before.nodes.dom().contains(merged_idx),
        cluster@.len() > 0,
        forall|k: int|
            0 <= k < cluster@.len() ==> before.nodes.dom().contains(#[trigger] cluster@[k]),
        before.edges.dom().len() + edges_touching(before, cluster@).len() <= u32::MAX,
        old(vfg)@ == with_node(before, merged_idx, node),
    ensures
        rewiring_done(
            before,
            with_node(before, merged_idx, node),
            cluster@,
            merged_idx,
            rewired(before, cluster@, merged_idx, cluster@.len()),
            numbers@,
            final(vfg)@,
        ),
{
    let ghost base = with_node(before, merged_idx, node);
    let mut seen_incoming = IndexSet::new();
    let mut seen_outgoing = IndexSet::new();
    let ghost mut ids: Seq<u32> = Seq::empty();
    let ghost mut state = rewired(before, cluster@, merged_idx, 0);
    let mut i: usize = 0;
    while i < cluster.len()
        invariant
            i <= cluster.len(),
            before.wf(),
            !before.nodes.dom().contains(merged_idx),
            cluster@.len() > 0,
            forall|k: int|
                0 <= k < cluster@.len() ==> before.nodes.dom().contains(#[trigger] cluster@[k]),
            before.edges.dom().len() + edges_touching(before, cluster@).len() <= u32::MAX,
            base == with_node(before, merged_idx, node),
            state == rewired(before, cluster@, merged_idx, i as nat),
            rewiring_done(before, base, cluster@, merged_idx, state, ids, vfg@),
            forall|other: u32| #[trigger]
                seen_incoming@.contains(other as usize) <==> state.sources.contains(other),
            forall|other: u32| #[trigger]
                seen_outgoing@.contains(other as usize) <==> state.targets.contains(other),
        decreases cluster.len() - i,
    {
        let old_idx = cluster[i];
        let ghost start = state;
        let ghost arriving = before.incoming[old_idx];
        let ghost leaving = before.outgoing[old_idx];
        proof {
            assert(cluster@.contains(old_idx));
            lemma_rewiring_keeps_members(
                before,
                node,
                cluster@,
                merged_idx,
                state,
                ids,
                vfg@,
                old_idx,
            );
        }
        assert(vfg@.nodes.dom().contains(old_idx));
        assert(graph::graph_nodes(vfg.graph).dom().contains(old_idx));
        let incoming = graph::edges_to(&vfg.graph, old_idx);
        let mut j: usize = 0;
        proof {
            assert(arriving.take(0) =~= Seq::<u32>::empty());
            assert forall|k: int| 0 <= k < incoming@.len() implies (#[trigger] incoming@[k]).0
                == arriving[k] && incoming@[k].1 == before.edges[arriving[k]].0 && incoming@[k].2
                == before.edges[arriving[k]].2 by {
                assert(arriving.contains(arriving[k]));
                assert(before.edges.dom().contains(arriving[k]));
            }
        }
        while j < incoming.len()
            invariant
                j <= incoming.len(),
                i < cluster.len(),
                old_idx == cluster@[i as int],
                before.wf(),
                !before.nodes.dom().contains(merged_idx),
                forall|k: int|
                    0 <= k < cluster@.len() ==> before.nodes.dom().contains(#[trigger] cluster@[k]),
                before.edges.dom().len() + edges_touching(before, cluster@).len() <= u32::MAX,
                base == with_node(before, merged_idx, node),
                arriving == before.incoming[old_idx],
                incoming@.len() == arriving.len(),
                forall|k: int|
                    0 <= k < incoming@.len() ==> (#[trigger] incoming@[k]).0 == arriving[k]
                        && incoming@[k].1 == before.edges[arriving[k]].0 && incoming@[k].2
                        == before.edges[arriving[k]].2,
                rewiring_wf(before, cluster@, merged_idx, start),
                state == take_incoming(
                    before,
                    cluster@,
                    merged_idx,
                    arriving.take(j as int),
                    start,
                ),
                rewiring_done(before, base, cluster@, merged_idx, state, ids, vfg@),
                forall|other: u32| #[trigger]
                    seen_incoming@.contains(other as usize) <==> state.sources.contains(other),
                forall|other: u32| #[trigger]
                    seen_outgoing@.contains(other as usize) <==> state.targets.contains(other),
            decreases incoming.len() - j,
        {
            let src = incoming[j].1;
            let edge = incoming[j].2;
            let ghost next = take_incoming(
                before,
                cluster@,
                merged_idx,
                arriving.take(j + 1),
                start,
            );
            proof {
                assert(arriving.take(j + 1).drop_last() =~= arriving.take(j as int));
                assert(arriving.take(j + 1).last() == arriving[j as int]);
                assert(cluster@.contains(old_idx));
                lemma_take_incoming_wf(before, cluster@, merged_idx, old_idx, j + 1, start);
            }
            let inside = contains(cluster, src);
            if !inside {
                let ghost seen = seen_incoming@;
                let fresh = seen_incoming.insert(src as usize);
                assert(fresh == !state.sources.contains(src)) by {
                    assert(seen.contains(src as usize) <==> state.sources.contains(src));
                }
                if fresh {
                    assert(cluster@[0] == cluster@[0]);
                    let id = lead(
                        vfg,
                        src,
                        merged_idx,
                        edge,
                        Ghost(before),
                        Ghost(node),
                        Ghost(cluster@),
                        Ghost(merged_idx),
                        Ghost(state),
                        Ghost(next),
                        Ghost(ids),
                    );
                    proof {
                        ids = ids.push(id@);
                    }
                }
                proof {
                    assert forall|other: u32| #[trigger]
                        seen_incoming@.contains(other as usize) <==> next.sources.contains(other) by {
                        assert(seen.contains(other as usize) <==> state.sources.contains(other));
                        if other as usize == src as usize {
                            assert(other == src);
                        }
                    }
                }
            }
            proof {
                state = next;
            }
            j += 1;
        }
        assert(arriving.take(j as int) =~= arriving);
        let ghost middle = state;
        proof {
            lemma_rewiring_keeps_members(
                before,
                node,
                cluster@,
                merged_idx,
                state,
                ids,
                vfg@,
                old_idx,
            );
        }
        assert(vfg@.nodes.dom().contains(old_idx));
        assert(graph::graph_nodes(vfg.graph).dom().contains(old_idx));
        let outgoing = graph::edges_from(&vfg.graph, old_idx);
        let mut j: usize = 0;
        proof {
            assert(leaving.take(0) =~= Seq::<u32>::empty());
            assert forall|k: int| 0 <= k < outgoing@.len() implies (#[trigger] outgoing@[k]).0
                == leaving[k] && outgoing@[k].1 == before.edges[leaving[k]].1 && outgoing@[k].2
                == before.edges[leaving[k]].2 by {
                assert(leaving.contains(leaving[k]));
                assert(before.edges.dom().contains(leaving[k]));
            }
        }
        while j < outgoing.len()
            invariant
                j <= outgoing.len(),
                i < cluster.len(),
                old_idx == cluster@[i as int],
                before.wf(),
                !before.nodes.dom().contains(merged_idx),
                forall|k: int|
                    0 <= k < cluster@.len() ==> before.nodes.dom().contains(#[trigger] cluster@[k]),
                before.edges.dom().len() + edges_touching(before, cluster@).len() <= u32::MAX,
                base == with_node(before, merged_idx, node),
                leaving == before.outgoing[old_idx],
                outgoing@.len() == leaving.len(),
                forall|k: int|
                    0 <= k < outgoing@.len() ==> (#[trigger] outgoing@[k]).0 == leaving[k]
                        && outgoing@[k].1 == before.edges[leaving[k]].1 && outgoing@[k].2
                        == before.edges[leaving[k]].2,
                rewiring_wf(before, cluster@, merged_idx, middle),
                state == take_outgoing(
                    before,
                    cluster@,
                    merged_idx,
                    leaving.take(j as int),
                    middle,
                ),
                rewiring_done(before, base, cluster@, merged_idx, state, ids, vfg@),
                forall|other: u32| #[trigger]
                    seen_incoming@.contains(other as usize) <==> state.sources.contains(other),
                forall|other: u32| #[trigger]
                    seen_outgoing@.contains(other as usize) <==> state.targets.contains(other),
            decreases outgoing.len() - j,
        {
            let tgt = outgoing[j].1;
            let edge = outgoing[j].2;
            let ghost next = take_outgoing(
                before,
                cluster@,
                merged_idx,
                leaving.take(j + 1),
                middle,
            );
            proof {
                assert(leaving.take(j + 1).drop_last() =~= leaving.take(j as int));
                assert(leaving.take(j + 1).last() == leaving[j as int]);
                assert(cluster@.contains(old_idx));
                lemma_take_outgoing_wf(before, cluster@, merged_idx, old_idx, j + 1, middle);
            }
            let inside = contains(cluster, tgt);
            if !inside {
                let ghost seen = seen_outgoing@;
                let fresh = seen_outgoing.insert(tgt as usize);
                assert(fresh == !state.targets.contains(tgt)) by {
                    assert(seen.contains(tgt as usize) <==> state.targets.contains(tgt));
                }
                if fresh {
                    let id = lead(
                        vfg,
                        merged_idx,
                        tgt,
                        edge,
                        Ghost(before),
                        Ghost(node),
                        Ghost(cluster@),
                        Ghost(merged_idx),
                        Ghost(state),
                        Ghost(next),
                        Ghost(ids),
                    );
                    proof {
                        ids = ids.push(id@);
                    }
                }
                proof {
                    assert forall|other: u32| #[trigger]
                        seen_outgoing@.contains(other as usize) <==> next.targets.contains(other) by {
                        assert(seen.contains(other as usize) <==> state.targets.contains(other));
                        if other as usize == tgt as usize {
                            assert(other == tgt);
                        }
                    }
                }
            }
            proof {
                state = next;
            }
            j += 1;
        }
        assert(leaving.take(j as int) =~= leaving);
        i += 1;
    }
    Ghost(ids)
}

/// Whether a list of nodes holds one.
fn contains(list: &Vec<u32>, node: u32) -> (found: bool)
    ensures
        found == list@.contains(node),
{
    let mut i: usize = 0;
    while i < list.len()
        invariant
            i <= list.len(),
            forall|k: int| 0 <= k < i ==> list@[k] != node,
        decreases list.len() - i,
    {
        if list[i] == node {
            return true;
        }
        i += 1;
    }
    false
}

/// Whether nodes are of a graph and none of them is in a cluster.
pub open spec fn outside(graph: GraphModel, cluster: Seq<u32>, nodes: Seq<u32>) -> bool {
    forall|k: int|
        0 <= k < nodes.len() ==> graph.nodes.dom().contains(#[trigger] nodes[k])
            && !cluster.contains(nodes[k])
}

/// Contract a cluster into one node.
fn contract(vfg: &mut VirtualFlowGraph, cluster: &Vec<u32>)
    requires
        old(vfg)@.wf(),
        old(vfg)@.grouped(),
        mergeable(old(vfg)@, cluster@),
        room_to_contract(old(vfg)@, cluster@),
    ensures
        contracted(old(vfg)@, cluster@, final(vfg)@),
        final(vfg)@.wf(),
        final(vfg)@.grouped(),
        final(vfg)@.nodes.dom().len() <= old(vfg)@.nodes.dom().len(),
        final(vfg)@.edges.dom().len() <= old(vfg)@.edges.dom().len(),
        forall|node: u32| #[trigger]
            old(vfg)@.nodes.dom().contains(node) && !cluster@.contains(node) ==> final(
                vfg)@.nodes.dom().contains(node) && final(vfg)@.nodes[node] == old(vfg)@.nodes[node],
        forall|nodes: Seq<u32>|
            outside(old(vfg)@, cluster@, nodes) ==> (#[trigger] edges_touching(
                final(vfg)@,
                nodes,
            )).len() <= edges_touching(old(vfg)@, nodes).len(),
{
    let ghost before = vfg@;
    let merged = build_merged_node(vfg, cluster);
    let ghost node = merged@;
    let merged_idx = vfg.add_node(merged);
    let ids = rewire_edges(vfg, cluster, merged_idx, Ghost(before), Ghost(node));
    let ghost base = with_node(before, merged_idx, node);
    let ghost state = rewired(before, cluster@, merged_idx, cluster@.len());
    let ghost middle = vfg@;
    proof {
        assert(cluster@.contains(cluster@[0]));
        lemma_rewiring_keeps_members(
            before,
            node,
            cluster@,
            merged_idx,
            state,
            ids@,
            middle,
            cluster@[0],
        );
        assert forall|k: int| 0 <= k < cluster@.len() implies middle.nodes.dom().contains(
            #[trigger] cluster@[k],
        ) by {
            assert(before.nodes.dom().contains(cluster@[k]));
        }
    }
    let mut i: usize = 0;
    assert(cluster@.take(0) =~= Seq::<u32>::empty());
    while i < cluster.len()
        invariant
            i <= cluster.len(),
            middle.wf(),
            cluster@.no_duplicates(),
            forall|k: int|
                0 <= k < cluster@.len() ==> middle.nodes.dom().contains(#[trigger] cluster@[k]),
            vfg@ == without_nodes(middle, cluster@.take(i as int)),
            vfg@.wf(),
        decreases cluster.len() - i,
    {
        let ghost front = cluster@.take(i as int);
        let ghost next = cluster@.take(i + 1);
        proof {
            assert(next.drop_last() =~= front);
            assert(next.last() == cluster@[i as int]);
            assert forall|k: int| 0 <= k < front.len() implies middle.nodes.dom().contains(
                #[trigger] front[k],
            ) by {
                assert(cluster@[k] == front[k]);
            }
            lemma_without_nodes(middle, front);
            assert(!front.contains(cluster@[i as int])) by {
                if front.contains(cluster@[i as int]) {
                    let k = front.index_of(cluster@[i as int]);
                    assert(cluster@[k] == cluster@[i as int]);
                }
            }
            assert(vfg@.nodes.dom().contains(cluster@[i as int]));
        }
        vfg.remove_node(cluster[i]);
        i += 1;
    }
    proof {
        assert(cluster@.take(i as int) =~= cluster@);
        let after = vfg@;
        assert(contracted_as(before, cluster@, merged_idx, ids@, after));
        lemma_without_nodes(middle, cluster@);
        lemma_with_node_wf(before, merged_idx, node);
        assert forall|k: int| 0 <= k < state.edges.len() implies base.nodes.dom().contains(
            (#[trigger] state.edges[k]).0,
        ) && base.nodes.dom().contains(state.edges[k].1) by {}
        lemma_with_edges(base, ids@, state.edges);
        lemma_rewiring_bound(before, cluster@, merged_idx, state);
        let kept = edges_apart(before, cluster@);
        ids@.unique_seq_to_set();
        assert(after.edges.dom().subset_of(kept.union(ids@.to_set()))) by {
            assert forall|id: u32| after.edges.dom().contains(id) implies kept.union(
                ids@.to_set(),
            ).contains(id) by {
                assert(middle.edges.dom().contains(id));
            }
        }
        vstd::set_lib::lemma_len_union(kept, ids@.to_set());
        vstd::set_lib::lemma_len_subset(after.edges.dom(), kept.union(ids@.to_set()));
        assert forall|id: u32| #[trigger] after.edges.dom().contains(id) implies (kept.contains(id)
            && after.edges[id] == before.edges[id]) || (exists|k: int|
            #![trigger state.edges[k]]
            0 <= k < ids@.len() && ids@[k] == id && after.edges[id] == state.edges[k]) by {
            assert(middle.edges.dom().contains(id));
            assert(after.edges[id] == middle.edges[id]);
            if !kept.contains(id) {
                assert(ids@.contains(id));
                let k = ids@.index_of(id);
                assert(ids@[k] == id);
                assert(middle.edges[ids@[k]] == state.edges[k]);
            }
        }
        assert forall|nodes: Seq<u32>| outside(before, cluster@, nodes) implies (
        #[trigger] edges_touching(after, nodes)).len() <= edges_touching(before, nodes).len() by {
            lemma_touching_shrinks(before, cluster@, merged_idx, state, ids@, after, nodes);
        }
        assert forall|n: u32| #[trigger] after.nodes.dom().contains(n) implies after.nodes[n].qubits.len()
            == total(after.nodes[n].partition) by {
            if n != merged_idx {
                assert(before.nodes.dom().contains(n));
            }
        }
        assert forall|n: u32| #[trigger] before.nodes.dom().contains(n) && !cluster@.contains(
            n,
        ) implies after.nodes.dom().contains(n) && after.nodes[n] == before.nodes[n] by {
            assert(middle.nodes.dom().contains(n));
            assert(after.nodes.dom().contains(n));
        }
    }
}

// --- Clustering ---------------------------------------------------------------------------------

/// Whether some of the nodes covers a qubit.
pub open spec fn covers(graph: GraphModel, members: Seq<u32>, qubit: usize) -> bool {
    exists|k: int|
        0 <= k < members.len() && graph.nodes[#[trigger] members[k]].qubits.contains(qubit)
}

/// Whether an edge leads from a node to some of the nodes.
pub open spec fn feeds(graph: GraphModel, source: u32, members: Seq<u32>) -> bool {
    exists|k: int| 0 <= k < members.len() && graph::linked(graph.edges, source, #[trigger] members[k])
}

/// Whether a node may join nodes already together: it covers none of their qubits, and it shares a
/// predecessor with them or is a reset nothing leads to.
pub open spec fn joins(graph: GraphModel, members: Seq<u32>, node: u32) -> bool {
    &&& forall|qubit: usize| #[trigger]
        graph.nodes[node].qubits.contains(qubit) ==> !covers(graph, members, qubit)
    &&& (exists|source: u32| #[trigger]
        graph::linked(graph.edges, source, node) && feeds(graph, source, members)) || (
    graph.nodes[node].kind is Reset && forall|source: u32| !#[trigger]
        graph::linked(graph.edges, source, node))
}

/// The first cluster from a position on that a node may join, or past the last if it may join none.
pub open spec fn first_home(
    graph: GraphModel,
    clusters: Seq<Seq<u32>>,
    node: u32,
    from: int,
) -> int
    decreases clusters.len() - from,
{
    if from < 0 || from >= clusters.len() {
        clusters.len() as int
    } else if joins(graph, clusters[from], node) {
        from
    } else {
        first_home(graph, clusters, node, from + 1)
    }
}

/// The lists once a node is added to the one at a position, or as a list of its own past the last.
pub open spec fn extended(lists: Seq<Seq<u32>>, at: int, node: u32) -> Seq<Seq<u32>> {
    if 0 <= at < lists.len() {
        lists.update(at, lists[at].push(node))
    } else {
        lists.push(seq![node])
    }
}

/// The clusters a group falls into, each node in order joining the first it may, or starting one.
pub open spec fn clusters_of(graph: GraphModel, group: Seq<u32>) -> Seq<Seq<u32>>
    decreases group.len(),
{
    if group.len() == 0 {
        Seq::empty()
    } else {
        let clusters = clusters_of(graph, group.drop_last());
        extended(clusters, first_home(graph, clusters, group.last(), 0), group.last())
    }
}

proof fn lemma_first_home(graph: GraphModel, clusters: Seq<Seq<u32>>, node: u32, from: int)
    requires
        0 <= from <= clusters.len(),
    ensures
        from <= first_home(graph, clusters, node, from) <= clusters.len(),
        first_home(graph, clusters, node, from) < clusters.len() ==> joins(
            graph,
            clusters[first_home(graph, clusters, node, from)],
            node,
        ),
    decreases clusters.len() - from,
{
    if from < clusters.len() && !joins(graph, clusters[from], node) {
        lemma_first_home(graph, clusters, node, from + 1);
    }
}

/// Whether no node is in two of the lists, or twice in one.
pub open spec fn all_apart(lists: Seq<Seq<u32>>) -> bool {
    &&& forall|c: int| 0 <= c < lists.len() ==> (#[trigger] lists[c]).no_duplicates()
    &&& forall|c: int, d: int, node: u32|
        0 <= c < lists.len() && 0 <= d < lists.len() && #[trigger] lists[c].contains(node)
            && #[trigger] lists[d].contains(node) ==> c == d
}

/// Whether a node is in one of the lists.
pub open spec fn listed(lists: Seq<Seq<u32>>, node: u32) -> bool {
    exists|c: int| 0 <= c < lists.len() && (#[trigger] lists[c]).contains(node)
}

proof fn lemma_push_contains(list: Seq<u32>, item: u32, other: u32)
    ensures
        list.push(item).contains(other) <==> list.contains(other) || other == item,
        list.no_duplicates() && !list.contains(item) ==> list.push(item).no_duplicates(),
{
    let after = list.push(item);
    assert(after[list.len() as int] == item);
    if list.contains(other) {
        assert(after[list.index_of(other)] == other);
    }
    if after.contains(other) && other != item {
        assert(list[after.index_of(other)] == other);
    }
}

/// Adding a new node to one list, or as a list of its own, keeps the lists apart.
proof fn lemma_apart_extends(lists: Seq<Seq<u32>>, at: int, node: u32)
    requires
        all_apart(lists),
        0 <= at <= lists.len(),
        !listed(lists, node),
    ensures
        all_apart(extended(lists, at, node)),
        forall|other: u32| #[trigger]
            listed(extended(lists, at, node), other) <==> listed(lists, other) || other == node,
{
    let after = extended(lists, at, node);
    let empty = Seq::<u32>::empty();
    assert(seq![node] =~= empty.push(node));
    assert forall|c: int, other: u32| 0 <= c < after.len() implies (
    #[trigger] after[c].contains(other) <==> (c < lists.len() && lists[c].contains(other)) || (c == at
        && other == node)) by {
        if c == at {
            if at < lists.len() {
                lemma_push_contains(lists[at], node, other);
            } else {
                lemma_push_contains(empty, node, other);
            }
        }
    }
    assert forall|c: int| 0 <= c < after.len() implies (#[trigger] after[c]).no_duplicates() by {
        if c == at {
            if at < lists.len() {
                assert(!lists[at].contains(node));
                lemma_push_contains(lists[at], node, node);
            }
        }
    }
    assert forall|c: int, d: int, other: u32|
        0 <= c < after.len() && 0 <= d < after.len() && #[trigger] after[c].contains(other)
            && #[trigger] after[d].contains(other) implies c == d by {
        if c < lists.len() && lists[c].contains(other) {
            assert(listed(lists, other));
        }
        if d < lists.len() && lists[d].contains(other) {
            assert(listed(lists, other));
        }
    }
    assert forall|other: u32| #[trigger] listed(after, other) <==> listed(lists, other) || other
        == node by {
        if listed(lists, other) {
            let c = choose|c: int| 0 <= c < lists.len() && (#[trigger] lists[c]).contains(other);
            assert(after[c].contains(other));
        }
        if other == node {
            assert(after[at].contains(node));
        }
        if listed(after, other) {
            let c = choose|c: int| 0 <= c < after.len() && (#[trigger] after[c]).contains(other);
            assert(after[c].contains(other));
            if c < lists.len() && lists[c].contains(other) {
                assert(listed(lists, other));
            }
        }
    }
}

/// A group falls into clusters of its own nodes, each in one.
pub proof fn lemma_clusters_split_the_group(graph: GraphModel, group: Seq<u32>)
    requires
        group.no_duplicates(),
    ensures
        all_apart(clusters_of(graph, group)),
        forall|node: u32| #[trigger] listed(clusters_of(graph, group), node) <==> group.contains(node),
        forall|c: int|
            0 <= c < clusters_of(graph, group).len() ==> (#[trigger] clusters_of(graph, group)[c]).len()
                > 0,
    decreases group.len(),
{
    if group.len() == 0 {
    } else {
        let front = group.drop_last();
        let node = group.last();
        lemma_clusters_split_the_group(graph, front);
        let clusters = clusters_of(graph, front);
        let home = first_home(graph, clusters, node, 0);
        lemma_first_home(graph, clusters, node, 0);
        assert(!front.contains(node)) by {
            if front.contains(node) {
                let k = front.index_of(node);
                assert(group[k] == group[group.len() - 1]);
            }
        }
        assert(!listed(clusters, node));
        lemma_apart_extends(clusters, home, node);
        assert(group =~= front.push(node));
        assert forall|other: u32| #[trigger] listed(clusters_of(graph, group), other)
            <==> group.contains(other) by {
            lemma_push_contains(front, node, other);
            assert(listed(clusters, other) <==> front.contains(other));
        }
    }
}

/// The nodes of a cluster cover no qubit twice.
pub proof fn lemma_clusters_cover_disjoint_qubits(
    graph: GraphModel,
    group: Seq<u32>,
    c: int,
    i: int,
    j: int,
    qubit: usize,
)
    requires
        0 <= c < clusters_of(graph, group).len(),
        0 <= i < j < clusters_of(graph, group)[c].len(),
        graph.nodes[clusters_of(graph, group)[c][i]].qubits.contains(qubit),
    ensures
        !graph.nodes[clusters_of(graph, group)[c][j]].qubits.contains(qubit),
    decreases group.len(),
{
    if group.len() > 0 {
        let front = group.drop_last();
        let node = group.last();
        let clusters = clusters_of(graph, front);
        let home = first_home(graph, clusters, node, 0);
        lemma_first_home(graph, clusters, node, 0);
        if c == home {
            if home < clusters.len() {
                if j < clusters[home].len() {
                    lemma_clusters_cover_disjoint_qubits(graph, front, c, i, j, qubit);
                } else {
                    assert(covers(graph, clusters[home], qubit)) by {
                        assert(graph.nodes[clusters[home][i]].qubits.contains(qubit));
                    }
                }
            }
        } else {
            lemma_clusters_cover_disjoint_qubits(graph, front, c, i, j, qubit);
        }
    }
}

proof fn lemma_covers_push(graph: GraphModel, members: Seq<u32>, node: u32, qubit: usize)
    ensures
        covers(graph, members.push(node), qubit) <==> covers(graph, members, qubit)
            || graph.nodes[node].qubits.contains(qubit),
{
    let after = members.push(node);
    if covers(graph, members, qubit) {
        let k = choose|k: int|
            0 <= k < members.len() && graph.nodes[#[trigger] members[k]].qubits.contains(qubit);
        assert(graph.nodes[after[k]].qubits.contains(qubit));
    }
    if graph.nodes[node].qubits.contains(qubit) {
        assert(graph.nodes[after[members.len() as int]].qubits.contains(qubit));
    }
    if covers(graph, after, qubit) {
        let k = choose|k: int|
            0 <= k < after.len() && graph.nodes[#[trigger] after[k]].qubits.contains(qubit);
        if k < members.len() {
            assert(graph.nodes[members[k]].qubits.contains(qubit));
        }
    }
}

proof fn lemma_feeds_push(graph: GraphModel, source: u32, members: Seq<u32>, node: u32)
    ensures
        feeds(graph, source, members.push(node)) <==> feeds(graph, source, members) || graph::linked(
            graph.edges,
            source,
            node,
        ),
{
    let after = members.push(node);
    if feeds(graph, source, members) {
        let k = choose|k: int|
            0 <= k < members.len() && graph::linked(graph.edges, source, #[trigger] members[k]);
        assert(graph::linked(graph.edges, source, after[k]));
    }
    if graph::linked(graph.edges, source, node) {
        assert(graph::linked(graph.edges, source, after[members.len() as int]));
    }
    if feeds(graph, source, after) {
        let k = choose|k: int|
            0 <= k < after.len() && graph::linked(graph.edges, source, #[trigger] after[k]);
        if k < members.len() {
            assert(graph::linked(graph.edges, source, members[k]));
        }
    }
}

/// The nodes that lead to a node, once for each edge.
fn predecessors(vfg: &VirtualFlowGraph, node: u32) -> (sources: Vec<u32>)
    requires
        vfg@.wf(),
        vfg@.nodes.dom().contains(node),
    ensures
        forall|source: u32| #[trigger]
            sources@.contains(source) <==> graph::linked(vfg@.edges, source, node),
{
    let ghost list = vfg@.incoming[node];
    let ghost edges = vfg@.edges;
    let incoming = graph::edges_to(&vfg.graph, node);
    let mut sources: Vec<u32> = Vec::new();
    let mut i: usize = 0;
    while i < incoming.len()
        invariant
            i <= incoming.len(),
            incoming@.len() == list.len(),
            forall|k: int|
                0 <= k < incoming@.len() ==> (#[trigger] incoming@[k]).1 == edges[list[k]].0,
            sources.len() == i,
            forall|k: int| 0 <= k < i ==> #[trigger] sources@[k] == edges[list[k]].0,
        decreases incoming.len() - i,
    {
        sources.push(incoming[i].1);
        i += 1;
    }
    proof {
        assert forall|source: u32| #[trigger]
            sources@.contains(source) <==> graph::linked(vfg@.edges, source, node) by {
            if sources@.contains(source) {
                let k = sources@.index_of(source);
                assert(sources@[k] == source);
                assert(list.contains(list[k]));
                assert(edges.dom().contains(list[k]));
            }
            if graph::linked(edges, source, node) {
                let id = choose|id: u32| #[trigger]
                    edges.dom().contains(id) && edges[id].0 == source && edges[id].1 == node;
                assert(list.contains(id));
                let k = list.index_of(id);
                assert(sources@[k] == source);
            }
        }
    }
    sources
}

/// Whether a list of numbers shares none with a set.
fn apart_from(set: &IndexSet, items: &Vec<usize>) -> (apart: bool)
    ensures
        apart == (forall|item: usize| #[trigger] items@.contains(item) ==> !set@.contains(item)),
{
    let mut i: usize = 0;
    while i < items.len()
        invariant
            i <= items.len(),
            forall|k: int| 0 <= k < i ==> !set@.contains(#[trigger] items@[k]),
        decreases items.len() - i,
    {
        if set.contains(items[i]) {
            assert(items@.contains(items@[i as int]));
            return false;
        }
        i += 1;
    }
    proof {
        assert forall|item: usize| #[trigger] items@.contains(item) implies !set@.contains(item) by {
            let k = items@.index_of(item);
            assert(items@[k] == item);
        }
    }
    true
}

/// Split a group into clusters.
#[verifier::rlimit(40)]
fn cluster(vfg: &VirtualFlowGraph, group: &Vec<u32>) -> (clusters: Vec<Vec<u32>>)
    requires
        vfg@.wf(),
        forall|k: int|
            0 <= k < group@.len() ==> vfg@.nodes.dom().contains(#[trigger] group@[k]),
    ensures
        nested(clusters@) == clusters_of(vfg@, group@),
{
    let ghost graph = vfg@;
    let mut clusters: Vec<Vec<u32>> = Vec::new();
    let mut elements: Vec<IndexSet> = Vec::new();
    let mut sources: Vec<IndexSet> = Vec::new();
    assert(nested(clusters@) =~= Seq::<Seq<u32>>::empty());
    let mut i: usize = 0;
    while i < group.len()
        invariant
            i <= group.len(),
            graph == vfg@,
            graph.wf(),
            forall|k: int|
                0 <= k < group@.len() ==> graph.nodes.dom().contains(#[trigger] group@[k]),
            nested(clusters@) == clusters_of(graph, group@.take(i as int)),
            elements@.len() == clusters@.len(),
            sources@.len() == clusters@.len(),
            forall|c: int, qubit: usize|
                0 <= c < clusters@.len() ==> (#[trigger] elements@[c]@.contains(qubit) <==> covers(
                    graph,
                    clusters@[c]@,
                    qubit,
                )),
            forall|c: int, source: u32|
                0 <= c < clusters@.len() ==> (#[trigger] sources@[c]@.contains(source as usize)
                    <==> feeds(graph, source, clusters@[c]@)),
        decreases group.len() - i,
    {
        let idx = group[i];
        let ghost front = group@.take(i as int);
        let ghost next = group@.take(i + 1);
        let ghost given = nested(clusters@);
        proof {
            assert(next.drop_last() =~= front);
            assert(next.last() == idx);
            assert(graph.nodes.dom().contains(group@[i as int]));
        }
        let node = vfg.node(idx);
        let preds = predecessors(vfg, idx);
        let lone_reset = preds.len() == 0 && matches!(node.kind, NodeKind::Reset);
        proof {
            if preds@.len() > 0 {
                assert(preds@.contains(preds@[0]));
            }
            assert(lone_reset == (graph.nodes[idx].kind is Reset && forall|source: u32| !#[trigger]
                graph::linked(graph.edges, source, idx))) by {
                if preds@.len() == 0 {
                    assert forall|source: u32| !#[trigger] graph::linked(
                        graph.edges,
                        source,
                        idx,
                    ) by {
                        assert(!preds@.contains(source));
                    }
                } else {
                    assert(graph::linked(graph.edges, preds@[0], idx));
                }
            }
        }
        let mut home: usize = 0;
        let mut found = false;
        while home < clusters.len() && !found
            invariant
                home <= clusters.len(),
                graph == vfg@,
                node@ == graph.nodes[idx],
                given == nested(clusters@),
                elements@.len() == clusters@.len(),
                sources@.len() == clusters@.len(),
                forall|c: int, qubit: usize|
                    0 <= c < clusters@.len() ==> (#[trigger] elements@[c]@.contains(qubit)
                        <==> covers(graph, clusters@[c]@, qubit)),
                forall|c: int, source: u32|
                    0 <= c < clusters@.len() ==> (#[trigger] sources@[c]@.contains(source as usize)
                        <==> feeds(graph, source, clusters@[c]@)),
                forall|source: u32| #[trigger]
                    preds@.contains(source) <==> graph::linked(graph.edges, source, idx),
                lone_reset == (graph.nodes[idx].kind is Reset && forall|source: u32| !#[trigger]
                    graph::linked(graph.edges, source, idx)),
                first_home(graph, given, idx, 0) == first_home(graph, given, idx, home as int),
                found ==> home < clusters@.len() && joins(graph, clusters@[home as int]@, idx),
            decreases clusters.len() - home + (if found {
                0int
            } else {
                1int
            }),
        {
            let disjoint = apart_from(&elements[home], &node.qubits);
            let mut shared = lone_reset;
            let mut k: usize = 0;
            while k < preds.len() && !shared
                invariant
                    k <= preds.len(),
                    home < clusters@.len(),
                    sources@.len() == clusters@.len(),
                    !shared ==> !lone_reset && forall|l: int|
                        0 <= l < k ==> !sources@[home as int]@.contains(
                            (#[trigger] preds@[l]) as usize,
                        ),
                    shared ==> lone_reset || exists|l: int|
                        0 <= l < preds@.len() && sources@[home as int]@.contains(
                            (#[trigger] preds@[l]) as usize,
                        ),
                decreases preds.len() - k + (if shared {
                    0int
                } else {
                    1int
                }),
            {
                if sources[home].contains(preds[k] as usize) {
                    assert(sources@[home as int]@.contains(preds@[k as int] as usize));
                    shared = true;
                } else {
                    k += 1;
                }
            }
            proof {
                let members = clusters@[home as int]@;
                assert(given[home as int] == members);
                assert(disjoint == (forall|qubit: usize| #[trigger]
                    graph.nodes[idx].qubits.contains(qubit) ==> !covers(graph, members, qubit))) by {
                    assert forall|qubit: usize| elements@[home as int]@.contains(qubit) <==> covers(
                        graph,
                        members,
                        qubit,
                    ) by {}
                }
                assert(shared == (lone_reset || exists|source: u32| #[trigger]
                    graph::linked(graph.edges, source, idx) && feeds(graph, source, members))) by {
                    if shared && !lone_reset {
                        let l = choose|l: int|
                            0 <= l < preds@.len() && sources@[home as int]@.contains(
                                (#[trigger] preds@[l]) as usize,
                            );
                        let source = preds@[l];
                        assert(preds@.contains(source));
                        assert(graph::linked(graph.edges, source, idx));
                        assert(feeds(graph, source, members));
                    }
                    if exists|source: u32| #[trigger]
                        graph::linked(graph.edges, source, idx) && feeds(graph, source, members) {
                        let source = choose|source: u32| #[trigger]
                            graph::linked(graph.edges, source, idx) && feeds(graph, source, members);
                        assert(preds@.contains(source));
                        let l = preds@.index_of(source);
                        assert(preds@[l] == source);
                        assert(sources@[home as int]@.contains(source as usize));
                    }
                }
            }
            if disjoint && shared {
                found = true;
            } else {
                home += 1;
            }
        }
        assert(home == first_home(graph, given, idx, 0));
        let ghost old_elements = elements@;
        let ghost old_sources = sources@;
        if !found {
            let mut members: Vec<u32> = Vec::new();
            members.push(idx);
            clusters.push(members);
            elements.push(IndexSet::new());
            sources.push(IndexSet::new());
            proof {
                assert(members@ =~= seq![idx]);
                assert(nested(clusters@) =~= given.push(seq![idx]));
            }
        } else {
            let ghost before = clusters@[home as int]@;
            clusters[home].push(idx);
            proof {
                assert(nested(clusters@) =~= given.update(home as int, before.push(idx)));
            }
        }
        let ghost members = if found {
            given[home as int]
        } else {
            Seq::empty()
        };
        assert(clusters@[home as int]@ =~= members.push(idx));
        let ghost start_elements = elements@[home as int]@;
        let ghost start_sources = sources@[home as int]@;
        proof {
            assert forall|qubit: usize| #[trigger] start_elements.contains(qubit) <==> covers(
                graph,
                members,
                qubit,
            ) by {
                if found {
                    assert(old_elements[home as int]@.contains(qubit) <==> covers(
                        graph,
                        members,
                        qubit,
                    ));
                }
            }
            assert forall|source: u32| #[trigger] start_sources.contains(source as usize) <==> feeds(
                graph,
                source,
                members,
            ) by {
                if found {
                    assert(old_sources[home as int]@.contains(source as usize) <==> feeds(
                        graph,
                        source,
                        members,
                    ));
                }
            }
        }
        let mut k: usize = 0;
        let ghost frozen = elements@;
        while k < node.qubits.len()
            invariant
                k <= node.qubits.len(),
                home < elements@.len(),
                elements@.len() == frozen.len(),
                forall|c: int|
                    0 <= c < frozen.len() && c != home ==> #[trigger] elements@[c] == frozen[c],
                forall|qubit: usize| #[trigger]
                    elements@[home as int]@.contains(qubit) <==> start_elements.contains(qubit)
                        || node.qubits@.take(k as int).contains(qubit),
            decreases node.qubits.len() - k,
        {
            let ghost now = elements@[home as int]@;
            elements[home].insert(node.qubits[k]);
            proof {
                let done = node.qubits@.take(k as int);
                let more = node.qubits@.take(k + 1);
                let item = node.qubits@[k as int];
                assert(more =~= done.push(item));
                assert forall|qubit: usize| #[trigger] elements@[home as int]@.contains(qubit)
                    <==> start_elements.contains(qubit) || more.contains(qubit) by {
                    assert(now.contains(qubit) <==> start_elements.contains(qubit) || done.contains(
                        qubit,
                    ));
                    assert(more[k as int] == item);
                    if done.contains(qubit) {
                        assert(more[done.index_of(qubit)] == qubit);
                    }
                    if more.contains(qubit) && qubit != item {
                        assert(done[more.index_of(qubit)] == qubit);
                    }
                }
            }
            k += 1;
        }
        assert(node.qubits@.take(k as int) =~= node.qubits@);
        let mut k: usize = 0;
        let ghost frozen_sources = sources@;
        while k < preds.len()
            invariant
                k <= preds.len(),
                home < sources@.len(),
                sources@.len() == frozen_sources.len(),
                forall|c: int|
                    0 <= c < frozen_sources.len() && c != home ==> #[trigger] sources@[c]
                        == frozen_sources[c],
                forall|source: u32| #[trigger]
                    sources@[home as int]@.contains(source as usize) <==> start_sources.contains(
                        source as usize,
                    ) || preds@.take(k as int).contains(source),
            decreases preds.len() - k,
        {
            let ghost now = sources@[home as int]@;
            sources[home].insert(preds[k] as usize);
            proof {
                let done = preds@.take(k as int);
                let more = preds@.take(k + 1);
                let item = preds@[k as int];
                assert(more =~= done.push(item));
                assert forall|source: u32| #[trigger]
                    sources@[home as int]@.contains(source as usize) <==> start_sources.contains(
                        source as usize,
                    ) || more.contains(source) by {
                    assert(now.contains(source as usize) <==> start_sources.contains(source as usize)
                        || done.contains(source));
                    lemma_push_contains(done, item, source);
                    if source as usize == item as usize {
                        assert(source == item);
                    }
                }
            }
            k += 1;
        }
        assert(preds@.take(k as int) =~= preds@);
        proof {
            assert forall|c: int, qubit: usize| 0 <= c < clusters@.len() implies (
            #[trigger] elements@[c]@.contains(qubit) <==> covers(graph, clusters@[c]@, qubit)) by {
                if c == home {
                    lemma_covers_push(graph, members, idx, qubit);
                } else {
                    assert(clusters@[c]@ == given[c]);
                    assert(frozen[c] == old_elements[c]);
                    assert(elements@[c] == frozen[c]);
                    assert(old_elements[c]@.contains(qubit) <==> covers(graph, given[c], qubit));
                }
            }
            assert forall|c: int, source: u32| 0 <= c < clusters@.len() implies (
            #[trigger] sources@[c]@.contains(source as usize) <==> feeds(
                graph,
                source,
                clusters@[c]@,
            )) by {
                if c == home {
                    lemma_feeds_push(graph, source, members, idx);
                    assert(preds@.contains(source) <==> graph::linked(graph.edges, source, idx));
                } else {
                    assert(clusters@[c]@ == given[c]);
                    assert(frozen_sources[c] == old_sources[c]);
                    assert(sources@[c] == frozen_sources[c]);
                    assert(old_sources[c]@.contains(source as usize) <==> feeds(
                        graph,
                        source,
                        given[c],
                    ));
                }
            }
        }
        i += 1;
    }
    assert(group@.take(i as int) =~= group@);
    clusters
}

// --- The pass -----------------------------------------------------------------------------------

/// The first group from a position on whose nodes have a key, or past the last if none does.
pub open spec fn group_with(
    graph: GraphModel,
    groups: Seq<Seq<u32>>,
    key: MergeKey,
    from: int,
) -> int
    decreases groups.len() - from,
{
    if from < 0 || from >= groups.len() {
        groups.len() as int
    } else if key_of(graph.nodes[groups[from][0]].kind) == Some(key) {
        from
    } else {
        group_with(graph, groups, key, from + 1)
    }
}

/// The nodes of a list that can be merged at all, grouped by what they have to agree on.
pub open spec fn keyed(graph: GraphModel, list: Seq<u32>) -> Seq<Seq<u32>>
    decreases list.len(),
{
    if list.len() == 0 {
        Seq::empty()
    } else {
        let groups = keyed(graph, list.drop_last());
        match key_of(graph.nodes[list.last()].kind) {
            Some(key) => extended(groups, group_with(graph, groups, key, 0), list.last()),
            None => groups,
        }
    }
}

/// Whether a graph is another with a cluster contracted, if it is of two nodes or more.
pub open spec fn merged_cluster(before: GraphModel, cluster: Seq<u32>, after: GraphModel) -> bool {
    if cluster.len() < 2 {
        after == before
    } else {
        contracted(before, cluster, after)
    }
}

/// Whether a graph is another with each cluster of two nodes or more contracted, one after another.
pub open spec fn merged_clusters(
    before: GraphModel,
    clusters: Seq<Seq<u32>>,
    after: GraphModel,
) -> bool
    decreases clusters.len(),
{
    if clusters.len() == 0 {
        after == before
    } else {
        exists|middle: GraphModel|
            merged_clusters(before, clusters.drop_last(), middle) && #[trigger] merged_cluster(
                middle,
                clusters.last(),
                after,
            )
    }
}

/// Whether a graph is another with the clusters of a group contracted.
pub open spec fn merged_group(before: GraphModel, group: Seq<u32>, after: GraphModel) -> bool {
    merged_clusters(before, clusters_of(before, group), after)
}

/// Whether a graph is another with the clusters of each group contracted, one group after another.
pub open spec fn merged_groups(before: GraphModel, groups: Seq<Seq<u32>>, after: GraphModel) -> bool
    decreases groups.len(),
{
    if groups.len() == 0 {
        after == before
    } else {
        exists|middle: GraphModel|
            merged_groups(before, groups.drop_last(), middle) && #[trigger] merged_group(
                middle,
                groups.last(),
                after,
            )
    }
}

/// Whether a graph is another with a generation merged.
pub open spec fn merged_generation(before: GraphModel, list: Seq<u32>, after: GraphModel) -> bool {
    merged_groups(before, keyed(before, list), after)
}

/// Whether a graph is another with each generation merged, one after another.
pub open spec fn merged_generations(
    before: GraphModel,
    generations: Seq<Seq<u32>>,
    after: GraphModel,
) -> bool
    decreases generations.len(),
{
    if generations.len() == 0 {
        after == before
    } else {
        exists|middle: GraphModel|
            merged_generations(before, generations.drop_last(), middle)
                && #[trigger] merged_generation(middle, generations.last(), after)
    }
}

/// Whether nodes are as they were in another graph.
spec fn kept(before: GraphModel, after: GraphModel, node: u32) -> bool {
    before.nodes.dom().contains(node) ==> after.nodes.dom().contains(node) && after.nodes[node]
        == before.nodes[node]
}

proof fn lemma_group_with(graph: GraphModel, groups: Seq<Seq<u32>>, key: MergeKey, from: int)
    requires
        0 <= from <= groups.len(),
    ensures
        from <= group_with(graph, groups, key, from) <= groups.len(),
        group_with(graph, groups, key, from) < groups.len() ==> key_of(
            graph.nodes[groups[group_with(graph, groups, key, from)][0]].kind,
        ) == Some(key),
        forall|g: int|
            from <= g < group_with(graph, groups, key, from) ==> key_of(
                graph.nodes[#[trigger] groups[g][0]].kind,
            ) != Some(key),
    decreases groups.len() - from,
{
    if from < groups.len() && key_of(graph.nodes[groups[from][0]].kind) != Some(key) {
        lemma_group_with(graph, groups, key, from + 1);
    }
}

/// Every node of a list that can be merged at all is in one group, and a group's nodes agree on the key.
pub proof fn lemma_keyed(graph: GraphModel, list: Seq<u32>)
    requires
        list.no_duplicates(),
    ensures
        all_apart(keyed(graph, list)),
        forall|node: u32| #[trigger]
            listed(keyed(graph, list), node) <==> list.contains(node) && key_of(
                graph.nodes[node].kind,
            ) is Some,
        forall|g: int|
            0 <= g < keyed(graph, list).len() ==> (#[trigger] keyed(graph, list)[g]).len() > 0
                && key_of(graph.nodes[keyed(graph, list)[g][0]].kind) is Some,
        forall|g: int, k: int|
            0 <= g < keyed(graph, list).len() && 0 <= k < keyed(graph, list)[g].len() ==> key_of(
                graph.nodes[#[trigger] keyed(graph, list)[g][k]].kind,
            ) == key_of(graph.nodes[keyed(graph, list)[g][0]].kind),
    decreases list.len(),
{
    if list.len() > 0 {
        let front = list.drop_last();
        let node = list.last();
        lemma_keyed(graph, front);
        let groups = keyed(graph, front);
        assert(list =~= front.push(node));
        assert(!front.contains(node)) by {
            if front.contains(node) {
                let k = front.index_of(node);
                assert(list[k] == list[list.len() - 1]);
            }
        }
        assert forall|other: u32| list.contains(other) <==> front.contains(other) || other == node by {
            lemma_push_contains(front, node, other);
        }
        if let Some(key) = key_of(graph.nodes[node].kind) {
            let at = group_with(graph, groups, key, 0);
            lemma_group_with(graph, groups, key, 0);
            assert(!listed(groups, node));
            lemma_apart_extends(groups, at, node);
            let after = keyed(graph, list);
            assert(after == extended(groups, at, node));
            assert forall|g: int, k: int| 0 <= g < after.len() && 0 <= k < after[g].len() implies key_of(
                graph.nodes[#[trigger] after[g][k]].kind,
            ) == key_of(graph.nodes[after[g][0]].kind) by {
                if g < groups.len() && k < groups[g].len() {
                    assert(after[g][k] == groups[g][k]);
                }
                if g < groups.len() {
                    assert(after[g][0] == groups[g][0]);
                }
            }
            assert forall|g: int| 0 <= g < after.len() implies (#[trigger] after[g]).len() > 0
                && key_of(graph.nodes[after[g][0]].kind) is Some by {
                if g < groups.len() {
                    assert(groups[g].len() > 0);
                    assert(after[g][0] == groups[g][0]);
                }
            }
            assert forall|other: u32| #[trigger] listed(after, other) <==> list.contains(other)
                && key_of(graph.nodes[other].kind) is Some by {
                assert(listed(groups, other) <==> front.contains(other) && key_of(
                    graph.nodes[other].kind,
                ) is Some);
            }
        } else {
            assert forall|other: u32| #[trigger] listed(keyed(graph, list), other)
                <==> list.contains(other) && key_of(graph.nodes[other].kind) is Some by {
                assert(listed(groups, other) <==> front.contains(other) && key_of(
                    graph.nodes[other].kind,
                ) is Some);
            }
        }
    }
}

/// Two groups have different keys.
pub proof fn lemma_keyed_differ(graph: GraphModel, list: Seq<u32>, first: int, second: int)
    requires
        list.no_duplicates(),
        0 <= first < second < keyed(graph, list).len(),
    ensures
        key_of(graph.nodes[keyed(graph, list)[first][0]].kind) != key_of(
            graph.nodes[keyed(graph, list)[second][0]].kind,
        ),
    decreases list.len(),
{
    if list.len() > 0 {
        let front = list.drop_last();
        let groups = keyed(graph, front);
        lemma_keyed(graph, front);
        if let Some(key) = key_of(graph.nodes[list.last()].kind) {
            let at = group_with(graph, groups, key, 0);
            lemma_group_with(graph, groups, key, 0);
            let after = keyed(graph, list);
            assert(after == extended(groups, at, list.last()));
            assert(groups[first].len() > 0);
            assert(after[first][0] == groups[first][0]);
            if second < groups.len() {
                assert(groups[second].len() > 0);
                assert(after[second][0] == groups[second][0]);
                lemma_keyed_differ(graph, front, first, second);
            } else {
                assert(at == groups.len());
                assert(after[second][0] == list.last());
            }
        } else {
            lemma_keyed_differ(graph, front, first, second);
        }
    }
}

/// The number a key is looked up by.
spec fn key_number(key: MergeKey) -> int {
    match key {
        MergeKey::Measure => 0,
        MergeKey::Reset => 1,
        MergeKey::Propagate { gate, direction } => 2 + 2 * gate.number() + (match direction {
            Direction::Left => 0int,
            Direction::Right => 1int,
        }),
    }
}

proof fn lemma_key_numbers_differ(first: MergeKey, second: MergeKey)
    requires
        key_number(first) == key_number(second),
    ensures
        first == second,
{
    if let MergeKey::Propagate { gate: left, direction: _ } = first {
        if let MergeKey::Propagate { gate: right, direction: _ } = second {
            crate::standard_gate::lemma_gate_numbers_differ(left, right);
        }
    }
}

fn number_of(key: MergeKey) -> (number: usize)
    ensures
        number == key_number(key),
{
    match key {
        MergeKey::Measure => 0,
        MergeKey::Reset => 1,
        MergeKey::Propagate { gate, direction } => {
            let side: usize = match direction {
                Direction::Left => 0,
                Direction::Right => 1,
            };
            2 + 2 * gate.index() + side
        },
    }
}

/// Group the nodes of a generation by what they have to agree on.
fn group_by_key(vfg: &VirtualFlowGraph, generation: &Vec<u32>) -> (groups: Vec<Vec<u32>>)
    requires
        vfg@.wf(),
        generation@.no_duplicates(),
        forall|k: int|
            0 <= k < generation@.len() ==> vfg@.nodes.dom().contains(#[trigger] generation@[k]),
    ensures
        nested(groups@) == keyed(vfg@, generation@),
{
    let ghost graph = vfg@;
    let mut groups: Vec<Vec<u32>> = Vec::new();
    let mut positions = IndexMap::new();
    assert(nested(groups@) =~= Seq::<Seq<u32>>::empty());
    let mut i: usize = 0;
    while i < generation.len()
        invariant
            i <= generation.len(),
            graph == vfg@,
            graph.wf(),
            generation@.no_duplicates(),
            forall|k: int|
                0 <= k < generation@.len() ==> graph.nodes.dom().contains(
                    #[trigger] generation@[k],
                ),
            nested(groups@) == keyed(graph, generation@.take(i as int)),
            forall|key: MergeKey|
                #![trigger positions@.dom().contains(key_number(key) as usize)]
                group_with(graph, nested(groups@), key, 0) == if positions@.dom().contains(
                    key_number(key) as usize,
                ) {
                    positions@[key_number(key) as usize] as int
                } else {
                    groups@.len() as int
                } && (positions@.dom().contains(key_number(key) as usize)
                    ==> positions@[key_number(key) as usize] < groups@.len()),
        decreases generation.len() - i,
    {
        let idx = generation[i];
        let ghost front = generation@.take(i as int);
        let ghost next = generation@.take(i + 1);
        let ghost given = nested(groups@);
        let ghost known = positions@;
        proof {
            assert(next.drop_last() =~= front);
            assert(next.last() == idx);
            assert(graph.nodes.dom().contains(generation@[i as int]));
            assert(front.no_duplicates());
            assert(next.no_duplicates());
            lemma_keyed(graph, front);
        }
        if let Some(key) = merge_key(&vfg.node(idx).kind) {
            let number: usize = number_of(key);
            assert(key_number(key) as usize == number);
            assert(known.dom().contains(key_number(key) as usize) == known.dom().contains(number));
            match positions.get(number) {
                Some(at) => {
                    let ghost before = groups@[at as int]@;
                    groups[at].push(idx);
                    assert(nested(groups@) =~= extended(given, at as int, idx));
                },
                None => {
                    let mut members: Vec<u32> = Vec::new();
                    members.push(idx);
                    let at: usize = groups.len();
                    groups.push(members);
                    positions.insert(number, at);
                    assert(members@ =~= seq![idx]);
                    assert(nested(groups@) =~= extended(given, at as int, idx));
                },
            }
            proof {
                let after = nested(groups@);
                assert(after == keyed(graph, next));
                assert forall|other: MergeKey|
                    #![trigger positions@.dom().contains(key_number(other) as usize)]
                    group_with(graph, after, other, 0) == if positions@.dom().contains(
                        key_number(other) as usize,
                    ) {
                        positions@[key_number(other) as usize] as int
                    } else {
                        groups@.len() as int
                    } && (positions@.dom().contains(key_number(other) as usize)
                        ==> positions@[key_number(other) as usize] < groups@.len()) by {
                    assert(known.dom().contains(key_number(other) as usize) ==> true);
                    if key_number(other) as usize == number {
                        lemma_number_fits(other);
                        lemma_key_numbers_differ(other, key);
                    }
                    lemma_group_with_extends(graph, given, group_with(graph, given, key, 0), idx, key, other, 0);
                }
            }
        }
        i += 1;
    }
    assert(generation@.take(i as int) =~= generation@);
    groups
}

proof fn lemma_number_fits(key: MergeKey)
    ensures
        key_number(key) <= usize::MAX,
{
    if let MergeKey::Propagate { gate, direction: _ } = key {
        crate::standard_gate::lemma_gate_numbers_differ(gate, gate);
    }
}

/// Adding a node to the group of its key, or as the first of its group, changes where other keys are found
/// in no other way than that the groups found nowhere are past one more.
proof fn lemma_group_with_extends(
    graph: GraphModel,
    groups: Seq<Seq<u32>>,
    at: int,
    node: u32,
    key: MergeKey,
    other: MergeKey,
    from: int,
)
    requires
        at == group_with(graph, groups, key, 0),
        0 <= from <= groups.len(),
        forall|g: int| 0 <= g < groups.len() ==> (#[trigger] groups[g]).len() > 0,
        key_of(graph.nodes[node].kind) == Some(key),
    ensures
        ({
            let found = group_with(graph, groups, other, from);
            let after = extended(groups, at, node);
            group_with(graph, after, other, from) == if found < groups.len() {
                found
            } else if other == key && at == groups.len() {
                at
            } else {
                after.len() as int
            }
        }),
    decreases groups.len() - from,
{
    let after = extended(groups, at, node);
    lemma_group_with(graph, groups, key, 0);
    if from < groups.len() {
        assert(groups[from].len() > 0);
        assert(after[from][0] == groups[from][0]);
        if key_of(graph.nodes[groups[from][0]].kind) != Some(other) {
            lemma_group_with_extends(graph, groups, at, node, key, other, from + 1);
        }
    } else {
        if after.len() > groups.len() {
            assert(after[from][0] == node);
            reveal_with_fuel(group_with, 2);
        }
    }
}

/// Whether one graph has no more edges at some nodes than another.
pub open spec fn no_more_at(before: GraphModel, after: GraphModel, nodes: Seq<u32>) -> bool {
    edges_touching(after, nodes).len() <= edges_touching(before, nodes).len()
}

/// Whether nodes are of a graph and none of them is in one of some lists.
pub open spec fn unlisted(graph: GraphModel, lists: Seq<Seq<u32>>, nodes: Seq<u32>) -> bool {
    forall|k: int|
        0 <= k < nodes.len() ==> graph.nodes.dom().contains(#[trigger] nodes[k]) && !listed(
            lists,
            nodes[k],
        )
}

/// Whether two nodes or more of a list can be merged into one.
pub open spec fn may_merge(graph: GraphModel, list: Seq<u32>, members: Seq<u32>) -> bool {
    &&& members.len() >= 2
    &&& mergeable(graph, members)
    &&& forall|k: int| 0 <= k < members.len() ==> list.contains(#[trigger] members[k])
}

/// Whether numbers are left for contracting whatever nodes of a list can be merged.
pub open spec fn room_among(graph: GraphModel, list: Seq<u32>) -> bool {
    forall|members: Seq<u32>| #[trigger]
        may_merge(graph, list, members) ==> room_to_contract(graph, members)
}

/// Whether numbers are left for contracting whatever nodes of one generation can be merged.
pub open spec fn room_to_merge(graph: GraphModel) -> bool {
    forall|index: nat, members: Seq<u32>|
        #![trigger generation(graph, index), mergeable(graph, members)]
        members.len() >= 2 && mergeable(graph, members) && members.to_set().subset_of(
            generation(graph, index),
        ) ==> room_to_contract(graph, members)
}

/// Contract the clusters of two nodes or more, one after another.
fn contract_clusters(vfg: &mut VirtualFlowGraph, clusters: &Vec<Vec<u32>>)
    requires
        old(vfg)@.wf(),
        old(vfg)@.grouped(),
        all_apart(nested(clusters@)),
        forall|c: int|
            0 <= c < clusters@.len() ==> mergeable(old(vfg)@, (#[trigger] clusters@[c])@),
        forall|c: int|
            0 <= c < clusters@.len() && (#[trigger] clusters@[c])@.len() >= 2 ==> room_to_contract(
                old(vfg)@,
                clusters@[c]@,
            ),
    ensures
        merged_clusters(old(vfg)@, nested(clusters@), final(vfg)@),
        final(vfg)@.wf(),
        final(vfg)@.grouped(),
        final(vfg)@.nodes.dom().len() <= old(vfg)@.nodes.dom().len(),
        final(vfg)@.edges.dom().len() <= old(vfg)@.edges.dom().len(),
        forall|node: u32|
            !listed(nested(clusters@), node) ==> #[trigger] kept(old(vfg)@, final(vfg)@, node),
        forall|nodes: Seq<u32>|
            unlisted(old(vfg)@, nested(clusters@), nodes) ==> #[trigger] no_more_at(
                old(vfg)@,
                final(vfg)@,
                nodes,
            ),
{
    let ghost before = vfg@;
    let ghost lists = nested(clusters@);
    let mut i: usize = 0;
    assert(lists.take(0) =~= Seq::<Seq<u32>>::empty());
    while i < clusters.len()
        invariant
            i <= clusters.len(),
            lists == nested(clusters@),
            all_apart(lists),
            forall|c: int|
                0 <= c < clusters@.len() ==> mergeable(before, (#[trigger] clusters@[c])@),
            forall|c: int|
                0 <= c < clusters@.len() && (#[trigger] clusters@[c])@.len() >= 2
                    ==> room_to_contract(before, clusters@[c]@),
            merged_clusters(before, lists.take(i as int), vfg@),
            vfg@.wf(),
            vfg@.grouped(),
            vfg@.nodes.dom().len() <= before.nodes.dom().len(),
            vfg@.edges.dom().len() <= before.edges.dom().len(),
            forall|node: u32|
                !listed(lists.take(i as int), node) ==> #[trigger] kept(before, vfg@, node),
            forall|nodes: Seq<u32>|
                unlisted(before, lists.take(i as int), nodes) ==> #[trigger] no_more_at(
                    before,
                    vfg@,
                    nodes,
                ),
        decreases clusters.len() - i,
    {
        let ghost middle = vfg@;
        let ghost front = lists.take(i as int);
        let ghost next = lists.take(i + 1);
        let ghost members = clusters@[i as int]@;
        proof {
            assert(next.drop_last() =~= front);
            assert(next.last() == members);
            assert(mergeable(before, clusters@[i as int]@));
            assert(lists[i as int] == members);
            assert forall|k: int| 0 <= k < members.len() implies kept(before, middle, #[trigger] members[k]) by {
                let node = members[k];
                assert(lists[i as int].contains(node));
                if listed(front, node) {
                    let c = choose|c: int| 0 <= c < front.len() && (#[trigger] front[c]).contains(node);
                    assert(lists[c].contains(node));
                }
            }
            assert forall|k: int| 0 <= k < members.len() implies middle.nodes.dom().contains(
                #[trigger] members[k],
            ) && middle.nodes[members[k]] == before.nodes[members[k]] by {
                assert(kept(before, middle, members[k]));
                assert(before.nodes.dom().contains(members[k]));
            }
            assert(middle.nodes[members[0]] == before.nodes[members[0]]);
            assert(mergeable(middle, members));
            assert(unlisted(before, front, members)) by {
                assert forall|k: int| 0 <= k < members.len() implies before.nodes.dom().contains(
                    #[trigger] members[k],
                ) && !listed(front, members[k]) by {
                    assert(lists[i as int].contains(members[k]));
                    if listed(front, members[k]) {
                        let c = choose|c: int|
                            0 <= c < front.len() && (#[trigger] front[c]).contains(members[k]);
                        assert(lists[c].contains(members[k]));
                    }
                }
            }
            assert(no_more_at(before, middle, members));
            assert forall|node: u32| !listed(next, node) implies !listed(front, node) && !members.contains(node) by {
                if listed(front, node) {
                    let c = choose|c: int| 0 <= c < front.len() && (#[trigger] front[c]).contains(node);
                    assert(next[c].contains(node));
                }
                if members.contains(node) {
                    assert(next[i as int].contains(node));
                }
            }
        }
        if clusters[i].len() >= 2 {
            contract(vfg, &clusters[i]);
        }
        proof {
            assert(merged_clusters(before, front, middle) && merged_cluster(middle, members, vfg@));
            assert(merged_clusters(before, next, vfg@));
            assert forall|node: u32| !listed(next, node) implies #[trigger] kept(before, vfg@, node) by {
                assert(kept(before, middle, node));
                assert(middle.nodes.dom().contains(node) && !members.contains(node)
                    ==> vfg@.nodes.dom().contains(node));
            }
            assert forall|nodes: Seq<u32>| unlisted(before, next, nodes) implies #[trigger] no_more_at(
                before,
                vfg@,
                nodes,
            ) by {
                assert forall|k: int| 0 <= k < nodes.len() implies before.nodes.dom().contains(
                    #[trigger] nodes[k],
                ) && !listed(front, nodes[k]) && middle.nodes.dom().contains(nodes[k])
                    && !members.contains(nodes[k]) by {
                    assert(!listed(next, nodes[k]));
                    assert(kept(before, middle, nodes[k]));
                }
                assert(unlisted(before, front, nodes));
                assert(no_more_at(before, middle, nodes));
                assert(outside(middle, members, nodes));
                assert(edges_touching(vfg@, nodes).len() <= edges_touching(middle, nodes).len());
            }
        }
        i += 1;
    }
    assert(lists.take(i as int) =~= lists);
}

/// Contract the clusters of each group, one group after another.
fn merge_groups(vfg: &mut VirtualFlowGraph, groups: &Vec<Vec<u32>>, Ghost(list): Ghost<Seq<u32>>)
    requires
        old(vfg)@.wf(),
        old(vfg)@.grouped(),
        room_among(old(vfg)@, list),
        list.no_duplicates(),
        forall|k: int| 0 <= k < list.len() ==> old(vfg)@.nodes.dom().contains(#[trigger] list[k]),
        nested(groups@) == keyed(old(vfg)@, list),
    ensures
        merged_groups(old(vfg)@, nested(groups@), final(vfg)@),
        final(vfg)@.wf(),
        final(vfg)@.grouped(),
        final(vfg)@.nodes.dom().len() <= old(vfg)@.nodes.dom().len(),
        final(vfg)@.edges.dom().len() <= old(vfg)@.edges.dom().len(),
        forall|node: u32| !list.contains(node) ==> #[trigger] kept(old(vfg)@, final(vfg)@, node),
        forall|nodes: Seq<u32>|
            outside(old(vfg)@, list, nodes) ==> #[trigger] no_more_at(
                old(vfg)@,
                final(vfg)@,
                nodes,
            ),
{
    let ghost before = vfg@;
    let ghost lists = nested(groups@);
    proof {
        lemma_keyed(before, list);
        assert(lists.take(0) =~= Seq::<Seq<u32>>::empty());
    }
    let mut i: usize = 0;
    while i < groups.len()
        invariant
            i <= groups.len(),
            lists == nested(groups@),
            lists == keyed(before, list),
            list.no_duplicates(),
            forall|k: int| 0 <= k < list.len() ==> before.nodes.dom().contains(#[trigger] list[k]),
            room_among(before, list),
            merged_groups(before, lists.take(i as int), vfg@),
            vfg@.wf(),
            vfg@.grouped(),
            vfg@.nodes.dom().len() <= before.nodes.dom().len(),
            vfg@.edges.dom().len() <= before.edges.dom().len(),
            forall|node: u32|
                !listed(lists.take(i as int), node) ==> #[trigger] kept(before, vfg@, node),
            forall|nodes: Seq<u32>|
                unlisted(before, lists.take(i as int), nodes) ==> #[trigger] no_more_at(
                    before,
                    vfg@,
                    nodes,
                ),
        decreases groups.len() - i,
    {
        let ghost middle = vfg@;
        let ghost front = lists.take(i as int);
        let ghost next = lists.take(i + 1);
        let ghost members = groups@[i as int]@;
        proof {
            lemma_keyed(before, list);
            assert(next.drop_last() =~= front);
            assert(next.last() == members);
            assert(lists[i as int] == members);
            assert(lists[i as int].no_duplicates());
            assert(lists[i as int].len() > 0);
            assert forall|k: int| 0 <= k < members.len() implies middle.nodes.dom().contains(
                #[trigger] members[k],
            ) && middle.nodes[members[k]] == before.nodes[members[k]] && before.nodes.dom().contains(
                members[k],
            ) && list.contains(members[k]) && !listed(front, members[k]) && key_of(
                middle.nodes[members[k]].kind,
            ) == key_of(before.nodes[members[0]].kind) by {
                let node = members[k];
                assert(lists[i as int].contains(node));
                assert(listed(lists, node));
                let position = list.index_of(node);
                assert(before.nodes.dom().contains(list[position]));
                if listed(front, node) {
                    let c = choose|c: int| 0 <= c < front.len() && (#[trigger] front[c]).contains(node);
                    assert(lists[c].contains(node));
                }
                assert(kept(before, middle, node));
                assert(lists[i as int][k] == node);
            }
        }
        let clusters = cluster(vfg, &groups[i]);
        proof {
            let split = nested(clusters@);
            lemma_clusters_split_the_group(middle, members);
            assert forall|c: int| 0 <= c < clusters@.len() implies mergeable(
                middle,
                (#[trigger] clusters@[c])@,
            ) by {
                let cluster = clusters@[c]@;
                assert(split[c] == cluster);
                assert(split[c].len() > 0);
                assert(split[c].no_duplicates());
                assert forall|k: int| 0 <= k < cluster.len() implies members.contains(#[trigger] cluster[k]) by {
                    assert(split[c].contains(cluster[k]));
                    assert(listed(split, cluster[k]));
                }
                assert forall|k: int| 0 <= k < cluster.len() implies middle.nodes.dom().contains(
                    #[trigger] cluster[k],
                ) && key_of(middle.nodes[cluster[k]].kind) == key_of(before.nodes[members[0]].kind) by {
                    assert(members.contains(cluster[k]));
                    let position = members.index_of(cluster[k]);
                    assert(members[position] == cluster[k]);
                }
                assert(key_of(middle.nodes[cluster[0]].kind) is Some);
            }
            assert forall|c: int| 0 <= c < clusters@.len() && (
            #[trigger] clusters@[c])@.len() >= 2 implies room_to_contract(middle, clusters@[c]@) by {
                let cluster = clusters@[c]@;
                assert(split[c] == cluster);
                assert(mergeable(middle, cluster));
                assert forall|k: int| 0 <= k < cluster.len() implies before.nodes.dom().contains(
                    #[trigger] cluster[k],
                ) && middle.nodes[cluster[k]] == before.nodes[cluster[k]] && list.contains(cluster[k])
                    && !listed(front, cluster[k]) by {
                    assert(split[c].contains(cluster[k]));
                    assert(listed(split, cluster[k]));
                    let position = members.index_of(cluster[k]);
                    assert(members[position] == cluster[k]);
                }
                assert(middle.nodes[cluster[0]] == before.nodes[cluster[0]]);
                assert(mergeable(before, cluster));
                assert(may_merge(before, list, cluster));
                assert(unlisted(before, front, cluster));
                assert(no_more_at(before, middle, cluster));
            }
        }
        contract_clusters(vfg, &clusters);
        proof {
            assert(merged_groups(before, front, middle) && merged_group(middle, members, vfg@));
            assert(merged_groups(before, next, vfg@));
            assert forall|node: u32| !listed(next, node) implies #[trigger] kept(before, vfg@, node) by {
                if listed(front, node) {
                    let c = choose|c: int| 0 <= c < front.len() && (#[trigger] front[c]).contains(node);
                    assert(next[c].contains(node));
                }
                if members.contains(node) {
                    assert(next[i as int].contains(node));
                }
                assert(kept(before, middle, node));
                assert(!listed(nested(clusters@), node));
                assert(kept(middle, vfg@, node));
            }
            assert forall|nodes: Seq<u32>| unlisted(before, next, nodes) implies #[trigger] no_more_at(
                before,
                vfg@,
                nodes,
            ) by {
                assert forall|k: int| 0 <= k < nodes.len() implies before.nodes.dom().contains(
                    #[trigger] nodes[k],
                ) && !listed(front, nodes[k]) && middle.nodes.dom().contains(nodes[k]) && !listed(
                    nested(clusters@),
                    nodes[k],
                ) by {
                    let node = nodes[k];
                    assert(!listed(next, node));
                    if listed(front, node) {
                        let c = choose|c: int|
                            0 <= c < front.len() && (#[trigger] front[c]).contains(node);
                        assert(next[c].contains(node));
                    }
                    if members.contains(node) {
                        assert(next[i as int].contains(node));
                    }
                    assert(kept(before, middle, node));
                }
                assert(unlisted(before, front, nodes));
                assert(no_more_at(before, middle, nodes));
                assert(unlisted(middle, nested(clusters@), nodes));
                assert(no_more_at(middle, vfg@, nodes));
            }
        }
        i += 1;
    }
    proof {
        assert(lists.take(i as int) =~= lists);
        assert forall|nodes: Seq<u32>| outside(before, list, nodes) implies #[trigger] no_more_at(
            before,
            vfg@,
            nodes,
        ) by {
            lemma_keyed(before, list);
            assert forall|k: int| 0 <= k < nodes.len() implies before.nodes.dom().contains(
                #[trigger] nodes[k],
            ) && !listed(lists, nodes[k]) by {
                assert(!list.contains(nodes[k]));
            }
            assert(unlisted(before, lists, nodes));
        }
        assert forall|node: u32| !list.contains(node) implies #[trigger] kept(before, vfg@, node) by {
            lemma_keyed(before, list);
            assert(!listed(lists, node));
        }
    }
}

/// Merge parallel nodes throughout a sampling graph, in place.
pub fn merge_parallel_nodes(vfg: &mut VirtualFlowGraph)
    requires
        old(vfg)@.wf(),
        old(vfg)@.grouped(),
        room_to_merge(old(vfg)@),
    ensures
        exists|generations: Seq<Seq<u32>>| #[trigger]
            are_generations(old(vfg)@, generations) && merged_generations(
                old(vfg)@,
                generations,
                final(vfg)@,
            ),
        final(vfg)@.wf(),
        final(vfg)@.grouped(),
        final(vfg)@.nodes.dom().len() <= old(vfg)@.nodes.dom().len(),
        final(vfg)@.edges.dom().len() <= old(vfg)@.edges.dom().len(),
{
    let ghost before = vfg@;
    let generations = topological_generations(vfg);
    let ghost lists = nested(generations@);
    let mut i: usize = 0;
    assert(lists.take(0) =~= Seq::<Seq<u32>>::empty());
    while i < generations.len()
        invariant
            i <= generations.len(),
            lists == nested(generations@),
            are_generations(before, lists),
            merged_generations(before, lists.take(i as int), vfg@),
            vfg@.wf(),
            vfg@.grouped(),
            room_to_merge(before),
            before.wf(),
            vfg@.nodes.dom().len() <= before.nodes.dom().len(),
            vfg@.edges.dom().len() <= before.edges.dom().len(),
            forall|k: int, nodes: Seq<u32>|
                #![trigger lists[k], no_more_at(before, vfg@, nodes)]
                i <= k < lists.len() && nodes.to_set().subset_of(lists[k].to_set()) ==> no_more_at(
                    before,
                    vfg@,
                    nodes,
                ),
            forall|k: int, node: u32|
                i <= k < lists.len() && #[trigger] lists[k].contains(node) ==> kept(
                    before,
                    vfg@,
                    node,
                ),
        decreases generations.len() - i,
    {
        let ghost middle = vfg@;
        let ghost front = lists.take(i as int);
        let ghost next = lists.take(i + 1);
        let ghost list = generations@[i as int]@;
        proof {
            assert(next.drop_last() =~= front);
            assert(next.last() == list);
            assert(lists[i as int] == list);
            assert(lists[i as int].no_duplicates());
            assert forall|k: int| 0 <= k < list.len() implies middle.nodes.dom().contains(
                #[trigger] list[k],
            ) by {
                assert(lists[i as int].contains(list[k]));
                assert(list.to_set().contains(list[k]));
                assert(generation(before, i as nat).contains(list[k]));
            }
            assert(room_among(middle, list)) by {
                assert forall|members: Seq<u32>| #[trigger] may_merge(middle, list, members) implies
                    room_to_contract(middle, members) by {
                    assert forall|k: int| 0 <= k < members.len() implies before.nodes.dom().contains(
                        #[trigger] members[k],
                    ) && middle.nodes[members[k]] == before.nodes[members[k]] by {
                        assert(list.contains(members[k]));
                        assert(lists[i as int].contains(members[k]));
                        assert(list.to_set().contains(members[k]));
                        assert(generation(before, i as nat).contains(members[k]));
                        assert(kept(before, middle, members[k]));
                    }
                    assert(middle.nodes[members[0]] == before.nodes[members[0]]);
                    assert(mergeable(before, members));
                    assert(members.to_set().subset_of(lists[i as int].to_set())) by {
                        assert forall|node: u32| members.to_set().contains(node) implies lists[i as int].to_set().contains(
                            node,
                        ) by {
                            let k = members.index_of(node);
                            assert(members[k] == node);
                            assert(list.contains(members[k]));
                        }
                    }
                    assert(members.to_set().subset_of(generation(before, i as nat)));
                    assert(no_more_at(before, middle, members));
                }
            }
        }
        let groups = group_by_key(vfg, &generations[i]);
        merge_groups(vfg, &groups, Ghost(list));
        proof {
            assert(merged_generations(before, front, middle) && merged_generation(
                middle,
                list,
                vfg@,
            ));
            assert(merged_generations(before, next, vfg@));
            assert forall|k: int, node: u32|
                i + 1 <= k < lists.len() && #[trigger] lists[k].contains(node) implies kept(
                before,
                vfg@,
                node,
            ) by {
                assert(kept(before, middle, node));
                if list.contains(node) {
                    assert(lists[k].to_set().contains(node));
                    assert(lists[i as int].to_set().contains(node));
                    lemma_generations_are_disjoint(
                        before,
                        i as nat,
                        k as nat,
                        node,
                    );
                }
                assert(kept(middle, vfg@, node));
            }
            assert forall|k: int, nodes: Seq<u32>|
                #![trigger lists[k], no_more_at(before, vfg@, nodes)]
                i + 1 <= k < lists.len() && nodes.to_set().subset_of(
                    lists[k].to_set(),
                ) implies no_more_at(before, vfg@, nodes) by {
                assert(no_more_at(before, middle, nodes));
                assert(outside(middle, list, nodes)) by {
                    assert forall|n: int| 0 <= n < nodes.len() implies middle.nodes.dom().contains(
                        #[trigger] nodes[n],
                    ) && !list.contains(nodes[n]) by {
                        let node = nodes[n];
                        assert(nodes.to_set().contains(node));
                        assert(lists[k].to_set().contains(node));
                        assert(lists[k].contains(node));
                        assert(kept(before, middle, node));
                        assert(generation(before, k as nat).contains(node));
                        if list.contains(node) {
                            assert(lists[i as int].to_set().contains(node));
                            lemma_generations_are_disjoint(
                                before,
                                i as nat,
                                k as nat,
                                node,
                            );
                        }
                    }
                }
                assert(no_more_at(middle, vfg@, nodes));
            }
        }
        i += 1;
    }
    assert(lists.take(i as int) =~= lists);
}

// --- What contracting keeps --------------------------------------------------------------------------

/// Whether an edge of a list leads from one node to another.
spec fn has_edge(edges: Seq<(u32, u32, Edge)>, from: u32, to: u32) -> bool {
    exists|k: int| 0 <= k < edges.len() && (#[trigger] edges[k]).0 == from && edges[k].1 == to
}

/// Whether every node a rewiring knows to be led from, or to, has its edge.
spec fn linked(index: u32, state: Rewiring) -> bool {
    &&& forall|node: u32| #[trigger]
        state.sources.contains(node) ==> has_edge(state.edges, node, index)
    &&& forall|node: u32| #[trigger]
        state.targets.contains(node) ==> has_edge(state.edges, index, node)
}

/// Whether a rewiring has gone on from another.
spec fn goes_on(before: Rewiring, after: Rewiring) -> bool {
    before.sources.subset_of(after.sources) && before.targets.subset_of(after.targets)
}

proof fn lemma_linked_push(index: u32, state: Rewiring, edge: (u32, u32, Edge))
    requires
        linked(index, state),
    ensures
        forall|from: u32, to: u32| #[trigger]
            has_edge(state.edges, from, to) ==> has_edge(state.edges.push(edge), from, to),
        has_edge(state.edges.push(edge), edge.0, edge.1),
{
    let more = state.edges.push(edge);
    assert forall|from: u32, to: u32| #[trigger] has_edge(state.edges, from, to) implies has_edge(
        more,
        from,
        to,
    ) by {
        let k = choose|k: int|
            0 <= k < state.edges.len() && (#[trigger] state.edges[k]).0 == from
                && state.edges[k].1 == to;
        assert(more[k] == state.edges[k]);
    }
    assert(more[state.edges.len() as int] == edge);
}

proof fn lemma_incoming_taken(
    graph: GraphModel,
    cluster: Seq<u32>,
    index: u32,
    ids: Seq<u32>,
    given: Rewiring,
)
    requires
        linked(index, given),
    ensures
        ({
            let after = take_incoming(graph, cluster, index, ids, given);
            &&& linked(index, after)
            &&& goes_on(given, after)
            &&& forall|i: int|
                0 <= i < ids.len() && !cluster.contains(graph.edges[#[trigger] ids[i]].0)
                    ==> after.sources.contains(graph.edges[ids[i]].0)
        }),
    decreases ids.len(),
{
    if ids.len() > 0 {
        let front = ids.drop_last();
        let last = ids.len() - 1;
        lemma_incoming_taken(graph, cluster, index, front, given);
        let before = take_incoming(graph, cluster, index, front, given);
        let (source, _, edge) = graph.edges[ids[last]];
        lemma_linked_push(index, before, (source, index, edge));
        let after = take_incoming(graph, cluster, index, ids, given);
        assert forall|i: int| 0 <= i < ids.len() && !cluster.contains(
            graph.edges[#[trigger] ids[i]].0,
        ) implies after.sources.contains(graph.edges[ids[i]].0) by {
            if i < last {
                assert(front[i] == ids[i]);
            }
        }
    }
}

proof fn lemma_outgoing_taken(
    graph: GraphModel,
    cluster: Seq<u32>,
    index: u32,
    ids: Seq<u32>,
    given: Rewiring,
)
    requires
        linked(index, given),
    ensures
        ({
            let after = take_outgoing(graph, cluster, index, ids, given);
            &&& linked(index, after)
            &&& goes_on(given, after)
            &&& forall|i: int|
                0 <= i < ids.len() && !cluster.contains(graph.edges[#[trigger] ids[i]].1)
                    ==> after.targets.contains(graph.edges[ids[i]].1)
        }),
    decreases ids.len(),
{
    if ids.len() > 0 {
        let front = ids.drop_last();
        let last = ids.len() - 1;
        lemma_outgoing_taken(graph, cluster, index, front, given);
        let before = take_outgoing(graph, cluster, index, front, given);
        let (_, target, edge) = graph.edges[ids[last]];
        lemma_linked_push(index, before, (index, target, edge));
        let after = take_outgoing(graph, cluster, index, ids, given);
        assert forall|i: int| 0 <= i < ids.len() && !cluster.contains(
            graph.edges[#[trigger] ids[i]].1,
        ) implies after.targets.contains(graph.edges[ids[i]].1) by {
            if i < last {
                assert(front[i] == ids[i]);
            }
        }
    }
}

/// Every edge between a member and the outside has one in its place.
proof fn lemma_rewired_all(graph: GraphModel, cluster: Seq<u32>, index: u32, count: nat)
    requires
        graph.wf(),
        count <= cluster.len(),
        forall|k: int|
            0 <= k < cluster.len() ==> graph.nodes.dom().contains(#[trigger] cluster[k]),
    ensures
        ({
            let state = rewired(graph, cluster, index, count);
            &&& rewiring_wf(graph, cluster, index, state)
            &&& linked(index, state)
            &&& forall|m: int, id: u32|
                #![trigger cluster[m], graph.edges.dom().contains(id)]
                0 <= m < count && graph.edges.dom().contains(id) ==> (graph.edges[id].1 == cluster[m]
                    && !cluster.contains(graph.edges[id].0) ==> state.sources.contains(
                    graph.edges[id].0,
                )) && (graph.edges[id].0 == cluster[m] && !cluster.contains(graph.edges[id].1)
                    ==> state.targets.contains(graph.edges[id].1))
        }),
    decreases count,
{
    if count > 0 {
        let last = count - 1;
        let member = cluster[last];
        lemma_rewired_all(graph, cluster, index, last as nat);
        let before = rewired(graph, cluster, index, last as nat);
        let coming = graph.incoming[member];
        let going = graph.outgoing[member];
        assert(cluster.contains(member));
        assert(coming.take(coming.len() as int) =~= coming);
        assert(going.take(going.len() as int) =~= going);
        lemma_take_incoming_wf(graph, cluster, index, member, coming.len() as int, before);
        lemma_incoming_taken(graph, cluster, index, coming, before);
        let middle = take_incoming(graph, cluster, index, coming, before);
        lemma_take_outgoing_wf(graph, cluster, index, member, going.len() as int, middle);
        lemma_outgoing_taken(graph, cluster, index, going, middle);
        let state = rewired(graph, cluster, index, count);
        assert forall|m: int, id: u32|
            #![trigger cluster[m], graph.edges.dom().contains(id)]
            0 <= m < count && graph.edges.dom().contains(id) implies (graph.edges[id].1 == cluster[m]
            && !cluster.contains(graph.edges[id].0) ==> state.sources.contains(graph.edges[id].0))
            && (graph.edges[id].0 == cluster[m] && !cluster.contains(graph.edges[id].1)
            ==> state.targets.contains(graph.edges[id].1)) by {
            if m == last {
                if graph.edges[id].1 == member {
                    assert(coming.contains(id));
                    let i = coming.index_of(id);
                    assert(coming[i] == id);
                }
                if graph.edges[id].0 == member {
                    assert(going.contains(id));
                    let i = going.index_of(id);
                    assert(going[i] == id);
                }
            }
        }
    }
}

/// Whether an edge leads from a node to one of some nodes.
pub open spec fn leads_into(graph: GraphModel, from: u32, nodes: Seq<u32>) -> bool {
    exists|k: int| 0 <= k < nodes.len() && leads(graph, from, #[trigger] nodes[k])
}

/// Whether an edge leads to a node from one of some nodes.
pub open spec fn leads_out_of(graph: GraphModel, nodes: Seq<u32>, to: u32) -> bool {
    exists|k: int| 0 <= k < nodes.len() && leads(graph, #[trigger] nodes[k], to)
}

/// Contracting a cluster keeps what leads where: the merged node stands in the members' place. Another node leads to it
/// exactly if it led to a member, and it leads to another exactly if a member did; between other nodes nothing
/// changes, and every other node is as it was.
pub proof fn lemma_contraction_keeps_what_leads_where(
    before: GraphModel,
    cluster: Seq<u32>,
    index: u32,
    ids: Seq<u32>,
    after: GraphModel,
    one: u32,
    other: u32,
)
    requires
        before.wf(),
        mergeable(before, cluster),
        contracted_as(before, cluster, index, ids, after),
        !cluster.contains(one),
        !cluster.contains(other),
        one != index,
        other != index,
    ensures
        leads(after, one, other) <==> leads(before, one, other),
        leads(after, one, index) <==> leads_into(before, one, cluster),
        leads(after, index, other) <==> leads_out_of(before, cluster, other),
        !leads(after, index, index),
        after.nodes.dom().contains(index),
        after.nodes[index] == merged_node(before, cluster),
        after.nodes.dom().contains(one) <==> before.nodes.dom().contains(one),
        before.nodes.dom().contains(one) ==> after.nodes[one] == before.nodes[one],
        forall|k: int| 0 <= k < cluster.len() ==> !after.nodes.dom().contains(#[trigger] cluster[k]),
{
    let state = rewired(before, cluster, index, cluster.len());
    let edges = state.edges;
    lemma_rewired_all(before, cluster, index, cluster.len());
    let base = with_node(before, index, merged_node(before, cluster));
    lemma_with_node_wf(before, index, merged_node(before, cluster));
    assert forall|k: int| 0 <= k < edges.len() implies base.nodes.dom().contains(
        (#[trigger] edges[k]).0,
    ) && base.nodes.dom().contains(edges[k].1) by {
        assert(stands_in(before, cluster, index, edges[k], state.replaced[k]));
    }
    lemma_with_edges(base, ids, edges);
    let mid = with_edges(base, ids, edges);
    lemma_without_nodes(mid, cluster);
    assert(!cluster.contains(index)) by {
        if cluster.contains(index) {
            let k = cluster.index_of(index);
            assert(cluster[k] == index);
        }
    }
    assert forall|from: u32, to: u32|
        !cluster.contains(from) && !cluster.contains(to) implies (#[trigger] leads(after, from, to)
        <==> leads(before, from, to) || has_edge(edges, from, to)) by {
        if leads(after, from, to) {
            let id = choose|id: u32| #[trigger]
                after.edges.dom().contains(id) && after.edges[id].0 == from && after.edges[id].1
                    == to;
            assert(mid.edges.dom().contains(id));
            if !before.edges.dom().contains(id) {
                assert(ids.contains(id));
                let k = ids.index_of(id);
                assert(ids[k] == id);
                assert(edges[k].0 == from && edges[k].1 == to);
            } else {
                assert(base.edges.dom().contains(id));
            }
        }
        if leads(before, from, to) {
            let id = choose|id: u32| #[trigger]
                before.edges.dom().contains(id) && before.edges[id].0 == from
                    && before.edges[id].1 == to;
            assert(base.edges.dom().contains(id));
            assert(mid.edges.dom().contains(id));
            assert(after.edges.dom().contains(id));
        }
        if has_edge(edges, from, to) {
            let k = choose|k: int|
                0 <= k < edges.len() && (#[trigger] edges[k]).0 == from && edges[k].1 == to;
            assert(ids.contains(ids[k]));
            assert(mid.edges.dom().contains(ids[k]));
            assert(after.edges.dom().contains(ids[k]));
        }
    }
    assert forall|from: u32, to: u32| #[trigger] has_edge(edges, from, to) implies (from == index
        && leads_out_of(before, cluster, to) && to != index) || (to == index && leads_into(
        before,
        from,
        cluster,
    ) && from != index) by {
        let k = choose|k: int|
            0 <= k < edges.len() && (#[trigger] edges[k]).0 == from && edges[k].1 == to;
        let id = state.replaced[k];
        assert(stands_in(before, cluster, index, edges[k], id));
        let (a, b, _) = before.edges[id];
        if cluster.contains(b) {
            let m = cluster.index_of(b);
            assert(cluster[m] == b);
            assert(leads(before, a, cluster[m]));
        } else {
            let m = cluster.index_of(a);
            assert(cluster[m] == a);
            assert(leads(before, cluster[m], b));
        }
    }
    assert(!leads(before, one, index) && !leads(before, index, other) && !leads(
        before,
        index,
        index,
    )) by {
        assert forall|from: u32, to: u32| #[trigger] leads(before, from, to) implies from != index
            && to != index by {
            let id = choose|id: u32| #[trigger]
                before.edges.dom().contains(id) && before.edges[id].0 == from
                    && before.edges[id].1 == to;
        }
    }
    if leads_into(before, one, cluster) {
        let k = choose|k: int| 0 <= k < cluster.len() && leads(before, one, #[trigger] cluster[k]);
        let id = choose|id: u32| #[trigger]
            before.edges.dom().contains(id) && before.edges[id].0 == one && before.edges[id].1
                == cluster[k];
        assert(state.sources.contains(one));
        assert(has_edge(edges, one, index));
    }
    if leads_out_of(before, cluster, other) {
        let k = choose|k: int| 0 <= k < cluster.len() && leads(before, #[trigger] cluster[k], other);
        let id = choose|id: u32| #[trigger]
            before.edges.dom().contains(id) && before.edges[id].0 == cluster[k]
                && before.edges[id].1 == other;
        assert(state.targets.contains(other));
        assert(has_edge(edges, index, other));
    }
    assert(base.nodes[index] == merged_node(before, cluster));
    assert(after.nodes.dom().contains(index));
    if before.nodes.dom().contains(one) {
        assert(after.nodes.dom().contains(one));
        assert(base.nodes[one] == before.nodes[one]);
    }
    assert forall|k: int| 0 <= k < cluster.len() implies !after.nodes.dom().contains(
        #[trigger] cluster[k],
    ) by {
        assert(cluster.contains(cluster[k]));
    }
}

} // verus!
