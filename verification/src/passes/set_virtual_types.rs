//! Infer virtual types: sampling graph to sampling graph, in place.
//!
//! Forward-propagates each source's own type along its outgoing edges.

use vstd::prelude::*;

use crate::graph;
use crate::passes::utils::are_generations;
use crate::passes::utils::generation;
use crate::passes::utils::lemma_generations_are_disjoint;
use crate::passes::utils::lemma_settled_grows;
use crate::passes::utils::ready;
use crate::passes::utils::settled;
use crate::passes::utils::topological_generations;
use crate::virtual_flow_graph::Edge;
use crate::virtual_flow_graph::GraphModel;
use crate::virtual_flow_graph::NodeKind;
use crate::virtual_flow_graph::NodeKindModel;
use crate::virtual_flow_graph::VirtualFlowGraph;
use crate::virtual_type::VirtualType;

verus! {

/// The type a source node puts onto its outgoing edges.
pub open spec fn source_type(kind: NodeKindModel) -> Option<VirtualType> {
    match kind {
        NodeKindModel::Emission(emission) => Some(emission.virtual_type),
        // A reset prepares a known state, so what flows out of it is a Pauli frame.
        NodeKindModel::Reset => Some(VirtualType::Pauli),
        _ => None,
    }
}

/// The type a source node puts onto its outgoing edges.
///
/// For an emission this is read straight off the node rather than re-derived from its distribution or
/// basis mode: the type was resolved from the annotation when the emission was created, and that is the
/// authoritative value. Deriving it a second time here is how the two could disagree.
fn source_virtual_type(kind: &NodeKind) -> (virtual_type: Option<VirtualType>)
    ensures
        virtual_type == source_type(kind@),
{
    match kind {
        NodeKind::Emission(emission) => Some(emission.virtual_type),
        NodeKind::Reset => Some(VirtualType::Pauli),
        NodeKind::Propagate(_) | NodeKind::Collect(_) | NodeKind::Measure(_) => None,
    }
}

/// The first type found on a list of edges.
pub open spec fn first_type(list: Seq<u32>, edges: Map<u32, (u32, u32, Edge)>) -> Option<
    VirtualType,
>
    decreases list.len(),
{
    if list.len() == 0 {
        None
    } else if edges[list[0]].2.virtual_type is Some {
        edges[list[0]].2.virtual_type
    } else {
        first_type(list.drop_first(), edges)
    }
}

/// The type a node puts onto its outgoing edges: a source its own, a conjugation the one that comes in,
/// and any other node none.
pub open spec fn output_type(
    graph: GraphModel,
    edges: Map<u32, (u32, u32, Edge)>,
    node: u32,
) -> Option<VirtualType> {
    match graph.nodes[node].kind {
        NodeKindModel::Propagate(_) => first_type(graph.incoming[node], edges),
        kind => source_type(kind),
    }
}

/// The edges once the nodes of a set have put their types onto theirs.
pub open spec fn typed_by(
    graph: GraphModel,
    edges: Map<u32, (u32, u32, Edge)>,
    nodes: Set<u32>,
) -> Map<u32, (u32, u32, Edge)> {
    Map::new(
        |id: u32| edges.dom().contains(id),
        |id: u32|
            if nodes.contains(edges[id].0) && output_type(graph, edges, edges[id].0) is Some {
                (
                    edges[id].0,
                    edges[id].1,
                    Edge { virtual_type: output_type(graph, edges, edges[id].0) },
                )
            } else {
                edges[id]
            },
    )
}

/// The edges once this many generations have put their types onto theirs.
pub open spec fn typed_after(graph: GraphModel, generations: nat) -> Map<u32, (u32, u32, Edge)>
    decreases generations,
{
    if generations == 0 {
        graph.edges
    } else {
        let before = typed_after(graph, (generations - 1) as nat);
        typed_by(graph, before, generation(graph, (generations - 1) as nat))
    }
}

/// Typing edges moves none of them.
pub proof fn lemma_typing_moves_nothing(graph: GraphModel, generations: nat)
    ensures
        typed_after(graph, generations).dom() == graph.edges.dom(),
        forall|id: u32| #[trigger]
            graph.edges.dom().contains(id) ==> typed_after(graph, generations)[id].0
                == graph.edges[id].0 && typed_after(graph, generations)[id].1 == graph.edges[id].1,
    decreases generations,
{
    if generations > 0 {
        lemma_typing_moves_nothing(graph, (generations - 1) as nat);
        assert(typed_after(graph, generations).dom() =~= graph.edges.dom());
    }
}

proof fn lemma_first_type_agrees(
    list: Seq<u32>,
    left: Map<u32, (u32, u32, Edge)>,
    right: Map<u32, (u32, u32, Edge)>,
)
    requires
        forall|k: int| 0 <= k < list.len() ==> left[#[trigger] list[k]] == right[list[k]],
    ensures
        first_type(list, left) == first_type(list, right),
    decreases list.len(),
{
    if list.len() > 0 {
        let rest = list.drop_first();
        assert(left[list[0]] == right[list[0]]);
        assert forall|k: int| 0 <= k < rest.len() implies left[#[trigger] rest[k]] == right[rest[k]] by {
            assert(list[k + 1] == rest[k]);
        }
        lemma_first_type_agrees(rest, left, right);
    }
}

/// The first type found on the edges leading to a node.
fn incoming_type(vfg: &VirtualFlowGraph, node: u32) -> (found: Option<VirtualType>)
    requires
        vfg@.nodes.dom().contains(node),
    ensures
        found == first_type(vfg@.incoming[node], vfg@.edges),
{
    let incoming = graph::edges_to(&vfg.graph, node);
    let ghost list = vfg@.incoming[node];
    let mut i: usize = 0;
    assert(list.skip(0) =~= list);
    while i < incoming.len()
        invariant
            i <= incoming.len(),
            list == vfg@.incoming[node],
            incoming@.len() == list.len(),
            forall|k: int|
                0 <= k < incoming@.len() ==> (#[trigger] incoming@[k]).0 == list[k]
                    && incoming@[k].2 == vfg@.edges[list[k]].2,
            first_type(list, vfg@.edges) == first_type(list.skip(i as int), vfg@.edges),
        decreases incoming.len() - i,
    {
        assert(list.skip(i as int)[0] == list[i as int]);
        assert(list.skip(i as int).drop_first() =~= list.skip(i + 1));
        if incoming[i].2.virtual_type.is_some() {
            return incoming[i].2.virtual_type;
        }
        i += 1;
    }
    None
}

/// Set the virtual type on all edges by forward-propagating from each node's output type. Propagate nodes
/// pass through the virtual type from their incoming edges unchanged.
///
/// A node on a cycle, or past one, is in no generation, and its edges are left as they are.
pub fn set_virtual_types(sg: &mut VirtualFlowGraph)
    requires
        old(sg)@.wf(),
    ensures
        final(sg)@.wf(),
        final(sg)@.nodes == old(sg)@.nodes,
        final(sg)@.outgoing == old(sg)@.outgoing,
        final(sg)@.incoming == old(sg)@.incoming,
        exists|generations: nat|
            final(sg)@.edges == #[trigger] typed_after(old(sg)@, generations) && generation(
                old(sg)@,
                generations,
            ) == Set::<u32>::empty(),
{
    let ghost given = sg@;
    let generations = topological_generations(sg);
    let ghost lists = crate::partition::nested(generations@);
    let mut i: usize = 0;
    while i < generations.len()
        invariant
            i <= generations.len(),
            given.wf(),
            lists == crate::partition::nested(generations@),
            are_generations(given, lists),
            sg@.nodes == given.nodes,
            sg@.outgoing == given.outgoing,
            sg@.incoming == given.incoming,
            sg@.edges == typed_after(given, i as nat),
        decreases generations.len() - i,
    {
        let ghost base = typed_after(given, i as nat);
        let ghost members = lists[i as int];
        let current = &generations[i];
        proof {
            lemma_typing_moves_nothing(given, i as nat);
            assert(members == current@);
            assert(members.take(0).to_set() =~= Set::<u32>::empty());
            assert(typed_by(given, base, members.take(0).to_set()) =~= base);
        }
        let mut j: usize = 0;
        while j < current.len()
            invariant
                j <= current.len(),
                given.wf(),
                members == current@,
                members.no_duplicates(),
                members.to_set() == generation(given, i as nat),
                base.dom() == given.edges.dom(),
                forall|id: u32| #[trigger]
                    given.edges.dom().contains(id) ==> base[id].0 == given.edges[id].0 && base[id].1
                        == given.edges[id].1,
                sg@.nodes == given.nodes,
                sg@.outgoing == given.outgoing,
                sg@.incoming == given.incoming,
                sg@.edges == typed_by(given, base, members.take(j as int).to_set()),
            decreases current.len() - j,
        {
            let node = current[j];
            let ghost done = members.take(j as int);
            let ghost next = members.take(j + 1);
            let ghost edges = sg@.edges;
            proof {
                assert(members.to_set().contains(node));
                assert(generation(given, i as nat).contains(node));
                assert(next =~= done.push(node));
                assert forall|other: u32| next.to_set().contains(other) <==> done.to_set().contains(
                    other,
                ) || other == node by {
                    if done.contains(other) {
                        assert(next[done.index_of(other)] == other);
                    }
                    assert(next[j as int] == node);
                    if next.contains(other) {
                        let k = next.index_of(other);
                        if k < j {
                            assert(done[k] == other);
                        }
                    }
                }
                assert(!done.contains(node)) by {
                    if done.contains(node) {
                        let k = done.index_of(node);
                        assert(members[k] == members[j as int]);
                    }
                }
                // What comes in was typed by earlier generations.
                let list = given.incoming[node];
                assert forall|k: int| 0 <= k < list.len() implies edges[#[trigger] list[k]]
                    == base[list[k]] by {
                    assert(list.contains(list[k]));
                    assert(given.edges.dom().contains(list[k]));
                    let source = given.edges[list[k]].0;
                    if done.to_set().contains(source) {
                        let at = done.index_of(source);
                        assert(members[at] == source);
                        assert(members.to_set().contains(source));
                        assert(settled(given, i as nat).contains(source));
                    }
                }
                lemma_first_type_agrees(list, edges, base);
            }
            let kind = &sg.node(node).kind;
            let virtual_type = match source_virtual_type(kind) {
                Some(virtual_type) => Some(virtual_type),
                None => {
                    if matches!(kind, NodeKind::Propagate(_)) {
                        incoming_type(sg, node)
                    } else {
                        None
                    }
                },
            };
            assert(virtual_type == output_type(given, base, node));
            if virtual_type.is_some() {
                let outgoing = graph::edges_from(&sg.graph, node);
                let ghost list = given.outgoing[node];
                let mut k: usize = 0;
                while k < outgoing.len()
                    invariant
                        k <= outgoing.len(),
                        given.wf(),
                        given.nodes.dom().contains(node),
                        list == given.outgoing[node],
                        outgoing@.len() == list.len(),
                        forall|l: int|
                            0 <= l < outgoing@.len() ==> (#[trigger] outgoing@[l]).0 == list[l],
                        edges.dom() == given.edges.dom(),
                        sg@.nodes == given.nodes,
                        sg@.outgoing == given.outgoing,
                        sg@.incoming == given.incoming,
                        sg@.edges.dom() == edges.dom(),
                        forall|id: u32| #[trigger]
                            edges.dom().contains(id) ==> sg@.edges[id] == (if list.take(
                                k as int,
                            ).contains(id) {
                                (edges[id].0, edges[id].1, Edge { virtual_type })
                            } else {
                                edges[id]
                            }),
                    decreases outgoing.len() - k,
                {
                    let id = outgoing[k].0;
                    proof {
                        assert(list.contains(list[k as int]));
                        assert(given.edges.dom().contains(id));
                    }
                    let ghost before = sg@.edges;
                    graph::set_edge(&mut sg.graph, id, Edge { virtual_type });
                    proof {
                        let head = list.take(k as int);
                        let more = list.take(k + 1);
                        assert(more =~= head.push(id));
                        assert(sg@.nodes =~= given.nodes);
                        assert(sg@.edges.dom() =~= edges.dom());
                        assert forall|other: u32| #[trigger]
                            edges.dom().contains(other) implies sg@.edges[other] == (
                        if more.contains(other) {
                            (edges[other].0, edges[other].1, Edge { virtual_type })
                        } else {
                            edges[other]
                        }) by {
                            if head.contains(other) {
                                assert(more[head.index_of(other)] == other);
                            }
                            assert(more[k as int] == id);
                            if more.contains(other) && other != id {
                                let at = more.index_of(other);
                                assert(head[at] == other);
                            }
                        }
                    }
                    k += 1;
                }
                proof {
                    assert(list.take(k as int) =~= list);
                    assert forall|id: u32| #[trigger] edges.dom().contains(id) implies sg@.edges[id]
                        == typed_by(given, base, next.to_set())[id] by {
                        assert(list.contains(id) <==> given.edges.dom().contains(id)
                            && given.edges[id].0 == node);
                    }
                    assert(sg@.edges =~= typed_by(given, base, next.to_set()));
                }
            } else {
                assert(sg@.edges =~= typed_by(given, base, next.to_set()));
            }
            j += 1;
        }
        proof {
            assert(members.take(j as int) =~= members);
        }
        i += 1;
    }
    proof {
        assert(sg@.edges == typed_after(given, generations@.len()));
        lemma_typing_moves_nothing(given, generations@.len());
        assert(sg@.edges.dom() =~= given.edges.dom());
    }
}

/// Once a generation has put its types onto its edges, later generations leave them alone.
pub proof fn lemma_types_stay(graph: GraphModel, index: nat, generations: nat, id: u32)
    requires
        graph.edges.dom().contains(id),
        generation(graph, index).contains(graph.edges[id].0),
        index < generations,
    ensures
        typed_after(graph, generations)[id] == typed_after(graph, index + 1)[id],
    decreases generations,
{
    lemma_typing_moves_nothing(graph, (generations - 1) as nat);
    if index + 1 < generations {
        lemma_types_stay(graph, index, (generations - 1) as nat, id);
        if generation(graph, (generations - 1) as nat).contains(graph.edges[id].0) {
            lemma_generations_are_disjoint(
                graph,
                index,
                (generations - 1) as nat,
                graph.edges[id].0,
            );
        }
    }
}

/// Every edge leading from a source in some generation carries the source's own type in the end.
pub proof fn lemma_sources_type_their_edges(
    graph: GraphModel,
    index: nat,
    generations: nat,
    id: u32,
)
    requires
        graph.edges.dom().contains(id),
        generation(graph, index).contains(graph.edges[id].0),
        index < generations,
        source_type(graph.nodes[graph.edges[id].0].kind) is Some,
    ensures
        typed_after(graph, generations)[id].2.virtual_type == source_type(
            graph.nodes[graph.edges[id].0].kind,
        ),
{
    lemma_types_stay(graph, index, generations, id);
    lemma_typing_moves_nothing(graph, index);
}

/// Which generation a done node is of.
proof fn lemma_settled_in_some_generation(graph: GraphModel, generations: nat, node: u32) -> (index: nat)
    requires
        settled(graph, generations).contains(node),
    ensures
        index < generations,
        generation(graph, index).contains(node),
    decreases generations,
{
    let before = settled(graph, (generations - 1) as nat);
    if before.contains(node) {
        lemma_settled_in_some_generation(graph, (generations - 1) as nat, node)
    } else {
        (generations - 1) as nat
    }
}

/// What an edge from a done node carries in the end is what its tail puts out, given the types on the edges that
/// lead to it: a source its own type, a conjugation the one that comes in. A tail that puts out none leaves it as it
/// was.
pub proof fn lemma_types_follow_the_flow(graph: GraphModel, generations: nat, id: u32)
    requires
        graph.wf(),
        graph.edges.dom().contains(id),
        settled(graph, generations).contains(graph.edges[id].0),
    ensures
        match output_type(graph, typed_after(graph, generations), graph.edges[id].0) {
            Some(virtual_type) => typed_after(graph, generations)[id].2.virtual_type == Some(
                virtual_type,
            ),
            None => typed_after(graph, generations)[id] == graph.edges[id],
        },
{
    let tail = graph.edges[id].0;
    let index = lemma_settled_in_some_generation(graph, generations, tail);
    let before = typed_after(graph, index);
    let after = typed_after(graph, generations);
    lemma_types_stay(graph, index, generations, id);
    lemma_typing_moves_nothing(graph, index);
    lemma_typing_moves_nothing(graph, generations);
    // What leads to the tail was typed by earlier generations, and nothing has touched it since.
    let list = graph.incoming[tail];
    assert forall|k: int| 0 <= k < list.len() implies before[#[trigger] list[k]] == after[list[k]] by {
        let entering = list[k];
        assert(list.contains(entering));
        assert(graph.edges.dom().contains(entering) && graph.edges[entering].1 == tail);
        assert(settled(graph, index).contains(graph.edges[entering].0));
        let earlier = lemma_settled_in_some_generation(graph, index, graph.edges[entering].0);
        lemma_types_stay(graph, earlier, index, entering);
        lemma_types_stay(graph, earlier, generations, entering);
    }
    lemma_first_type_agrees(list, before, after);
    assert(output_type(graph, before, tail) == output_type(graph, after, tail));
    lemma_untouched_before(graph, index, id);
}

/// Until the generation of its tail an edge is as it was.
proof fn lemma_untouched_before(graph: GraphModel, index: nat, id: u32)
    requires
        graph.edges.dom().contains(id),
        !settled(graph, index).contains(graph.edges[id].0),
    ensures
        typed_after(graph, index)[id] == graph.edges[id],
    decreases index,
{
    if index > 0 {
        let previous = (index - 1) as nat;
        lemma_typing_moves_nothing(graph, previous);
        lemma_untouched_before(graph, previous, id);
    }
}

/// An edge out of a conjugation carries the type that comes into it, where all the types that come in are one.
pub proof fn lemma_conjugations_pass_types_on(
    graph: GraphModel,
    generations: nat,
    id: u32,
    entering: u32,
)
    requires
        graph.wf(),
        graph.edges.dom().contains(id),
        settled(graph, generations).contains(graph.edges[id].0),
        graph.nodes[graph.edges[id].0].kind is Propagate,
        graph.edges.dom().contains(entering),
        graph.edges[entering].1 == graph.edges[id].0,
        typed_after(graph, generations)[entering].2.virtual_type is Some,
        forall|other: u32| #[trigger]
            graph.edges.dom().contains(other) && graph.edges[other].1 == graph.edges[id].0
                && typed_after(graph, generations)[other].2.virtual_type is Some ==> typed_after(
                graph,
                generations,
            )[other].2.virtual_type == typed_after(graph, generations)[entering].2.virtual_type,
    ensures
        typed_after(graph, generations)[id].2.virtual_type == typed_after(
            graph,
            generations,
        )[entering].2.virtual_type,
{
    let tail = graph.edges[id].0;
    let list = graph.incoming[tail];
    let after = typed_after(graph, generations);
    lemma_types_follow_the_flow(graph, generations, id);
    assert(list.contains(entering));
    assert forall|k: int| 0 <= k < list.len() implies (after[#[trigger] list[k]].2.virtual_type is Some
        ==> after[list[k]].2.virtual_type == after[entering].2.virtual_type) by {
        assert(list.contains(list[k]));
    }
    lemma_one_type(list, after, list.index_of(entering), after[entering].2.virtual_type);
}

proof fn lemma_one_type(
    list: Seq<u32>,
    edges: Map<u32, (u32, u32, Edge)>,
    at: int,
    virtual_type: Option<VirtualType>,
)
    requires
        0 <= at < list.len(),
        edges[list[at]].2.virtual_type == virtual_type,
        virtual_type is Some,
        forall|k: int|
            0 <= k < list.len() ==> (edges[#[trigger] list[k]].2.virtual_type is Some
                ==> edges[list[k]].2.virtual_type == virtual_type),
    ensures
        first_type(list, edges) == virtual_type,
    decreases list.len(),
{
    if edges[list[0]].2.virtual_type is None {
        let rest = list.drop_first();
        assert(rest[at - 1] == list[at]);
        assert forall|k: int| 0 <= k < rest.len() implies (edges[#[trigger] rest[k]].2.virtual_type is Some
            ==> edges[rest[k]].2.virtual_type == virtual_type) by {
            assert(rest[k] == list[k + 1]);
        }
        lemma_one_type(rest, edges, at - 1, virtual_type);
    }
}

/// Whether no edge leads back to where it came from.
pub open spec fn acyclic(graph: GraphModel) -> bool {
    forall|id: u32| #[trigger]
        graph.edges.dom().contains(id) ==> !graph::reaches(
            graph.edges,
            graph.edges[id].1,
            graph.edges[id].0,
        )
}

/// A path back through nodes that are never done, as long as wanted.
proof fn lemma_path_back(graph: GraphModel, generations: nat, node: u32, length: nat) -> (path: Seq<u32>)
    requires
        graph.wf(),
        generation(graph, generations) == Set::<u32>::empty(),
        graph.nodes.dom().contains(node),
        !settled(graph, generations).contains(node),
    ensures
        path.len() == length + 1,
        graph::is_path(graph.edges, path),
        path.last() == node,
        forall|k: int| 0 <= k < path.len() ==> graph.nodes.dom().contains(#[trigger] path[k]),
    decreases length,
{
    if length == 0 {
        seq![node]
    } else {
        let done = settled(graph, generations);
        assert(!generation(graph, generations).contains(node));
        let id = choose|id: u32| #[trigger]
            graph.edges.dom().contains(id) && graph.edges[id].1 == node && !done.contains(
                graph.edges[id].0,
            );
        let before = lemma_path_back(graph, generations, graph.edges[id].0, (length - 1) as nat);
        let path = before.push(node);
        assert forall|i: int| 0 <= i < path.len() - 1 implies graph::linked(
            graph.edges,
            #[trigger] path[i],
            path[i + 1],
        ) by {
            if i < before.len() - 1 {
                assert(graph::linked(graph.edges, before[i], before[i + 1]));
            } else {
                assert(path[i] == graph.edges[id].0 && path[i + 1] == node);
            }
        }
        assert forall|k: int| 0 <= k < path.len() implies graph.nodes.dom().contains(
            #[trigger] path[k],
        ) by {
            if k < before.len() {
                assert(path[k] == before[k]);
            }
        }
        path
    }
}

/// Every node of a graph without cycles is in some generation.
pub proof fn lemma_acyclic_graphs_settle(graph: GraphModel, generations: nat, node: u32)
    requires
        graph.wf(),
        acyclic(graph),
        generation(graph, generations) == Set::<u32>::empty(),
        graph.nodes.dom().contains(node),
    ensures
        settled(graph, generations).contains(node),
{
    if !settled(graph, generations).contains(node) {
        let path = lemma_path_back(graph, generations, node, graph.nodes.dom().len());
        if path.no_duplicates() {
            path.unique_seq_to_set();
            assert(path.to_set().subset_of(graph.nodes.dom())) by {
                assert forall|n: u32| path.to_set().contains(n) implies graph.nodes.dom().contains(n) by {
                    let k = path.index_of(n);
                    assert(graph.nodes.dom().contains(path[k]));
                }
            }
            vstd::set_lib::lemma_len_subset(path.to_set(), graph.nodes.dom());
        } else {
            let (i, j) = choose|i: int, j: int|
                0 <= i < path.len() && 0 <= j < path.len() && i != j && path[i] == path[j];
            let (low, high) = if i < j {
                (i, j)
            } else {
                (j, i)
            };
            assert(graph::linked(graph.edges, path[high - 1], path[high - 1 + 1]));
            let id = choose|id: u32| #[trigger]
                graph.edges.dom().contains(id) && graph.edges[id].0 == path[high - 1]
                    && graph.edges[id].1 == path[high];
            let part = path.subrange(low, high);
            assert(graph::is_path(graph.edges, part)) by {
                assert forall|k: int| 0 <= k < part.len() - 1 implies graph::linked(
                    graph.edges,
                    #[trigger] part[k],
                    part[k + 1],
                ) by {
                    assert(graph::linked(graph.edges, path[low + k], path[low + k + 1]));
                }
            }
            assert(part[0] == path[low] && part.last() == path[high - 1]);
            assert(graph::reaches(graph.edges, graph.edges[id].1, graph.edges[id].0));
        }
    }
}

/// In a graph without cycles every edge out of a source carries the source's own type, and every edge out of a
/// conjugation the type that comes into it.
pub proof fn lemma_acyclic_graphs_are_typed(graph: GraphModel, generations: nat, id: u32)
    requires
        graph.wf(),
        acyclic(graph),
        generation(graph, generations) == Set::<u32>::empty(),
        graph.edges.dom().contains(id),
    ensures
        ({
            let after = typed_after(graph, generations);
            let tail = graph.edges[id].0;
            match graph.nodes[tail].kind {
                NodeKindModel::Emission(emission) => after[id].2.virtual_type == Some(
                    emission.virtual_type,
                ),
                NodeKindModel::Reset => after[id].2.virtual_type == Some(VirtualType::Pauli),
                NodeKindModel::Propagate(_) => first_type(graph.incoming[tail], after) is Some
                    ==> after[id].2.virtual_type == first_type(graph.incoming[tail], after),
                _ => after[id] == graph.edges[id],
            }
        }),
{
    lemma_acyclic_graphs_settle(graph, generations, graph.edges[id].0);
    lemma_types_follow_the_flow(graph, generations, id);
}

/// A graph once its edges are typed.
pub open spec fn typed(graph: GraphModel, generations: nat) -> GraphModel {
    GraphModel { edges: typed_after(graph, generations), ..graph }
}

proof fn lemma_typed_settles_alike(graph: GraphModel, generations: nat, count: nat)
    ensures
        settled(typed(graph, generations), count) == settled(graph, count),
        generation(typed(graph, generations), count) == generation(graph, count),
    decreases count,
{
    let after = typed(graph, generations);
    lemma_typing_moves_nothing(graph, generations);
    if count > 0 {
        lemma_typed_settles_alike(graph, generations, (count - 1) as nat);
    }
    let done = settled(graph, count);
    assert(settled(after, count) =~= done);
    assert forall|node: u32| ready(after, done).contains(node) <==> ready(graph, done).contains(node) by {
        if ready(after, done).contains(node) {
            assert forall|id: u32| #[trigger]
                graph.edges.dom().contains(id) && graph.edges[id].1 == node implies done.contains(
                graph.edges[id].0,
            ) by {
                assert(after.edges.dom().contains(id));
            }
        }
        if ready(graph, done).contains(node) {
            assert forall|id: u32| #[trigger]
                after.edges.dom().contains(id) && after.edges[id].1 == node implies done.contains(
                after.edges[id].0,
            ) by {
                assert(graph.edges.dom().contains(id));
            }
        }
    }
    assert(ready(after, done) =~= ready(graph, done));
}

/// Typing the edges of a graph a second time changes nothing.
pub proof fn lemma_typing_twice_changes_nothing(graph: GraphModel, generations: nat, again: nat)
    requires
        graph.wf(),
        generation(graph, generations) == Set::<u32>::empty(),
    ensures
        typed_after(typed(graph, generations), again) == typed_after(graph, generations),
    decreases again,
{
    let after = typed(graph, generations);
    if again > 0 {
        let previous = (again - 1) as nat;
        lemma_typing_twice_changes_nothing(graph, generations, previous);
        lemma_typed_settles_alike(graph, generations, previous);
        lemma_typing_moves_nothing(graph, generations);
        let members = generation(graph, previous);
        let edges = after.edges;
        let retyped = typed_by(after, edges, members);
        assert forall|id: u32| #[trigger] edges.dom().contains(id) implies retyped[id] == edges[id] by {
            let tail = graph.edges[id].0;
            if members.contains(tail) && output_type(after, edges, tail) is Some {
                lemma_nothing_past_the_last(graph, generations, previous, tail);
                lemma_types_follow_the_flow(graph, generations, id);
                assert(output_type(after, edges, tail) == output_type(graph, edges, tail));
            }
        }
        assert(retyped =~= edges);
    }
}

/// Where a generation is empty, every node of another is done by then.
proof fn lemma_nothing_past_the_last(graph: GraphModel, generations: nat, index: nat, node: u32)
    requires
        generation(graph, generations) == Set::<u32>::empty(),
        generation(graph, index).contains(node),
    ensures
        settled(graph, generations).contains(node),
{
    if index < generations {
        lemma_settled_grows(graph, index + 1, generations);
    } else {
        lemma_settled_stops(graph, generations, index);
        assert(generation(graph, generations).contains(node));
    }
}

proof fn lemma_settled_stops(graph: GraphModel, generations: nat, index: nat)
    requires
        generation(graph, generations) == Set::<u32>::empty(),
        generations <= index,
    ensures
        settled(graph, index) == settled(graph, generations),
    decreases index,
{
    if generations < index {
        lemma_settled_stops(graph, generations, (index - 1) as nat);
        assert(settled(graph, index) =~= settled(graph, generations));
    }
}

} // verus!
