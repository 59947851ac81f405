//! Prune unreachable nodes: sampling graph to sampling graph, in place.

use vstd::prelude::*;

use crate::collections::IndexSet;
use crate::graph;
use crate::graph::reaches;
use crate::virtual_flow_graph::without_node;
use crate::virtual_flow_graph::Edge;
use crate::virtual_flow_graph::GraphModel;
use crate::virtual_flow_graph::NodeKind;
use crate::virtual_flow_graph::NodeKindModel;
use crate::virtual_flow_graph::VirtualFlowGraph;

verus! {

/// Whether a node has work of its own to do, whatever else reaches it.
pub open spec fn self_sufficient(kind: NodeKindModel) -> bool {
    kind matches NodeKindModel::Collect(collect) && collect.steps.len() > 0
}

/// Whether a node has work of its own to do, whatever else reaches it.
///
/// A collector with steps composes something: absorbed gates, local emissions, or both. It has angles to
/// synthesize even with no virtual state arriving from anywhere, so reachability says nothing about
/// whether it is needed. Only an empty one is a pure junction that pruning may drop.
fn is_self_sufficient(kind: &NodeKind) -> (yes: bool)
    ensures
        yes == self_sufficient(kind@),
{
    match kind {
        NodeKind::Collect(collect) => collect.steps.len() > 0,
        _ => false,
    }
}

/// Whether a node can be reached from some source.
pub open spec fn fed(graph: GraphModel, node: u32) -> bool {
    exists|seed: u32| #[trigger]
        graph.nodes.dom().contains(seed) && graph.nodes[seed].kind.source() && reaches(
            graph.edges,
            seed,
            node,
        )
}

/// Whether some sink can be reached from a node.
pub open spec fn drained(graph: GraphModel, node: u32) -> bool {
    exists|seed: u32| #[trigger]
        graph.nodes.dom().contains(seed) && graph.nodes[seed].kind.sink() && reaches(
            graph.edges,
            node,
            seed,
        )
}

/// Which edges lead between kept nodes.
pub open spec fn between(edges: Map<u32, (u32, u32, Edge)>, keep: Set<u32>) -> spec_fn(u32) -> bool {
    |id: u32| keep.contains(edges[id].0) && keep.contains(edges[id].1)
}

/// A graph with only some of its nodes, the edges between those, and the order those are walked in.
pub open spec fn restricted(graph: GraphModel, keep: Set<u32>) -> GraphModel {
    GraphModel {
        nodes: graph.nodes.restrict(keep),
        edges: graph.edges.restrict(
            Set::new(
                |id: u32| graph.edges.dom().contains(id) && between(graph.edges, keep)(id),
            ),
        ),
        outgoing: Map::new(
            |node: u32| graph.outgoing.dom().contains(node) && keep.contains(node),
            |node: u32| graph.outgoing[node].filter(between(graph.edges, keep)),
        ),
        incoming: Map::new(
            |node: u32| graph.incoming.dom().contains(node) && keep.contains(node),
            |node: u32| graph.incoming[node].filter(between(graph.edges, keep)),
        ),
    }
}

/// Filtering twice is filtering for both.
proof fn lemma_filter_twice(
    list: Seq<u32>,
    first: spec_fn(u32) -> bool,
    second: spec_fn(u32) -> bool,
    both: spec_fn(u32) -> bool,
)
    requires
        forall|k: int|
            0 <= k < list.len() ==> both(#[trigger] list[k]) == (first(list[k]) && second(list[k])),
    ensures
        list.filter(first).filter(second) == list.filter(both),
    decreases list.len(),
{
    reveal(Seq::filter);
    if list.len() > 0 {
        let front = list.drop_last();
        let last = list.last();
        assert(list[list.len() - 1] == last);
        assert forall|k: int| 0 <= k < front.len() implies both(#[trigger] front[k]) == (first(
            front[k],
        ) && second(front[k])) by {
            assert(list[k] == front[k]);
        }
        lemma_filter_twice(front, first, second, both);
        if first(last) {
            let kept = front.filter(first);
            assert(kept.push(last).drop_last() =~= kept);
            assert(kept.push(last).last() == last);
        }
    }
}

proof fn lemma_filter_all(list: Seq<u32>, keep: spec_fn(u32) -> bool)
    requires
        forall|k: int| 0 <= k < list.len() ==> keep(#[trigger] list[k]),
    ensures
        list.filter(keep) == list,
    decreases list.len(),
{
    reveal(Seq::filter);
    if list.len() > 0 {
        let front = list.drop_last();
        assert forall|k: int| 0 <= k < front.len() implies keep(#[trigger] front[k]) by {
            assert(list[k] == front[k]);
        }
        lemma_filter_all(front, keep);
        assert(keep(list[list.len() - 1]));
        assert(front.push(list.last()) =~= list);
    }
}

/// Keeping every node keeps the graph.
proof fn lemma_restricted_whole(graph: GraphModel)
    requires
        graph.wf(),
    ensures
        restricted(graph, graph.nodes.dom()) == graph,
{
    let after = restricted(graph, graph.nodes.dom());
    assert(after.nodes =~= graph.nodes);
    assert(after.edges =~= graph.edges);
    assert forall|node: u32| graph.nodes.dom().contains(node) implies after.outgoing[node]
        == graph.outgoing[node] && after.incoming[node] == graph.incoming[node] by {
        let keep = between(graph.edges, graph.nodes.dom());
        assert forall|k: int| 0 <= k < graph.outgoing[node].len() implies keep(
            #[trigger] graph.outgoing[node][k],
        ) by {
            assert(graph.outgoing[node].contains(graph.outgoing[node][k]));
        }
        assert forall|k: int| 0 <= k < graph.incoming[node].len() implies keep(
            #[trigger] graph.incoming[node][k],
        ) by {
            assert(graph.incoming[node].contains(graph.incoming[node][k]));
        }
        lemma_filter_all(graph.outgoing[node], keep);
        lemma_filter_all(graph.incoming[node], keep);
    }
    assert(after.outgoing =~= graph.outgoing);
    assert(after.incoming =~= graph.incoming);
    assert(after =~= graph);
}

/// Taking out one more node keeps one node fewer.
proof fn lemma_restricted_without(graph: GraphModel, keep: Set<u32>, node: u32)
    requires
        graph.wf(),
        keep.subset_of(graph.nodes.dom()),
        keep.contains(node),
    ensures
        without_node(restricted(graph, keep), node) == restricted(graph, keep.remove(node)),
{
    let now = restricted(graph, keep);
    let after = without_node(now, node);
    let want = restricted(graph, keep.remove(node));
    assert(after.nodes =~= want.nodes);
    assert(after.edges =~= want.edges);
    assert(after.outgoing.dom() =~= want.outgoing.dom());
    assert(after.incoming.dom() =~= want.incoming.dom());
    let first = between(graph.edges, keep);
    let second = graph::off(now.edges, node);
    let both = between(graph.edges, keep.remove(node));
    assert forall|n: u32| after.outgoing.dom().contains(n) implies #[trigger] after.outgoing[n]
        == want.outgoing[n] by {
        let list = graph.outgoing[n];
        assert forall|k: int| 0 <= k < list.len() implies both(#[trigger] list[k]) == (first(
            list[k],
        ) && second(list[k])) by {
            assert(list.contains(list[k]));
            assert(graph.edges.dom().contains(list[k]));
        }
        lemma_filter_twice(list, first, second, both);
    }
    assert forall|n: u32| after.incoming.dom().contains(n) implies #[trigger] after.incoming[n]
        == want.incoming[n] by {
        let list = graph.incoming[n];
        assert forall|k: int| 0 <= k < list.len() implies both(#[trigger] list[k]) == (first(
            list[k],
        ) && second(list[k])) by {
            assert(list.contains(list[k]));
            assert(graph.edges.dom().contains(list[k]));
        }
        lemma_filter_twice(list, first, second, both);
    }
    assert(after.outgoing =~= want.outgoing);
    assert(after.incoming =~= want.incoming);
    assert(after =~= want);
}

/// Which ends a pruning pass looks for.
#[derive(Clone, Copy, PartialEq, Eq, Structural)]
enum Seeds {
    Sources,
    Sinks,
}

/// Whether a node is connected to some seed.
spec fn connected(graph: GraphModel, seeds: Seeds, node: u32) -> bool {
    match seeds {
        Seeds::Sources => fed(graph, node),
        Seeds::Sinks => drained(graph, node),
    }
}

spec fn is_seed(kind: NodeKindModel, seeds: Seeds) -> bool {
    match seeds {
        Seeds::Sources => kind.source(),
        Seeds::Sinks => kind.sink(),
    }
}

/// Whether a seed connects a node.
spec fn connects(graph: GraphModel, seeds: Seeds, seed: u32, node: u32) -> bool {
    is_seed(graph.nodes[seed].kind, seeds) && match seeds {
        Seeds::Sources => reaches(graph.edges, seed, node),
        Seeds::Sinks => reaches(graph.edges, node, seed),
    }
}

/// The nodes a pruning pass keeps.
spec fn survivors(graph: GraphModel, seeds: Seeds) -> Set<u32> {
    Set::new(
        |node: u32|
            graph.nodes.dom().contains(node) && (connected(graph, seeds, node) || self_sufficient(
                graph.nodes[node].kind,
            )),
    )
}

fn prune_unreachable(vfg: &mut VirtualFlowGraph, seeds: Seeds)
    requires
        old(vfg)@.wf(),
    ensures
        final(vfg)@.wf(),
        final(vfg)@ == restricted(old(vfg)@, survivors(old(vfg)@, seeds)),
{
    let ghost given = vfg@;
    let indices = vfg.node_indices();
    let mut reachable = IndexSet::new();
    let mut i: usize = 0;
    while i < indices.len()
        invariant
            i <= indices.len(),
            vfg@ == given,
            given.wf(),
            indices@.to_set() == given.nodes.dom(),
            forall|node: u32| #[trigger]
                reachable@.contains(node as usize) <==> exists|k: int|
                    0 <= k < i && connects(given, seeds, #[trigger] indices@[k], node),
        decreases indices.len() - i,
    {
        let seed = indices[i];
        assert(indices@.contains(seed));
        assert(given.nodes.dom().contains(seed));
        let kind = &vfg.node(seed).kind;
        let chosen = match seeds {
            Seeds::Sources => kind.is_source(),
            Seeds::Sinks => kind.is_sink(),
        };
        let ghost before = reachable@;
        if chosen {
            assert(graph::graph_nodes(vfg.graph).dom().contains(seed));
            let reached = match seeds {
                Seeds::Sources => graph::descendants(&vfg.graph, seed),
                Seeds::Sinks => graph::ancestors(&vfg.graph, seed),
            };
            let mut k: usize = 0;
            while k < reached.len()
                invariant
                    k <= reached.len(),
                    forall|node: u32| #[trigger]
                        reachable@.contains(node as usize) <==> before.contains(node as usize)
                            || reached@.take(k as int).contains(node),
                decreases reached.len() - k,
            {
                let ghost here = reachable@;
                reachable.insert(reached[k] as usize);
                proof {
                    let done = reached@.take(k as int);
                    let next = reached@.take(k + 1);
                    assert(next =~= done.push(reached@[k as int]));
                    assert forall|node: u32| #[trigger]
                        reachable@.contains(node as usize) <==> before.contains(node as usize)
                            || next.contains(node) by {
                        if done.contains(node) {
                            assert(next[done.index_of(node)] == node);
                        }
                        assert(next[k as int] == reached@[k as int]);
                        if next.contains(node) {
                            let at = next.index_of(node);
                            if at < k {
                                assert(done[at] == node);
                            }
                        }
                        if reachable@.contains(node as usize) && !here.contains(node as usize) {
                            assert(node as usize == reached@[k as int] as usize);
                            assert(node == reached@[k as int]);
                        }
                    }
                }
                k += 1;
            }
            assert(reached@.take(k as int) =~= reached@);
            assert forall|node: u32| #[trigger] reached@.contains(node) <==> connects(
                given,
                seeds,
                seed,
                node,
            ) by {}
        }
        proof {
            assert forall|node: u32| #[trigger]
                reachable@.contains(node as usize) <==> exists|k: int|
                    0 <= k < i + 1 && connects(given, seeds, #[trigger] indices@[k], node) by {
                if before.contains(node as usize) {
                    let k = choose|k: int|
                        0 <= k < i && connects(given, seeds, #[trigger] indices@[k], node);
                    assert(connects(given, seeds, indices@[k], node));
                }
                if connects(given, seeds, seed, node) {
                    assert(connects(given, seeds, indices@[i as int], node));
                }
                if exists|k: int|
                    0 <= k < i + 1 && connects(given, seeds, #[trigger] indices@[k], node) {
                    let k = choose|k: int|
                        0 <= k < i + 1 && connects(given, seeds, #[trigger] indices@[k], node);
                    if k < i {
                        assert(connects(given, seeds, indices@[k], node));
                    }
                }
            }
        }
        i += 1;
    }
    proof {
        assert forall|node: u32| #[trigger]
            reachable@.contains(node as usize) <==> connected(given, seeds, node) by {
            if reachable@.contains(node as usize) {
                let k = choose|k: int|
                    0 <= k < i && connects(given, seeds, #[trigger] indices@[k], node);
                assert(indices@.to_set().contains(indices@[k]));
                assert(given.nodes.dom().contains(indices@[k]));
            }
            if connected(given, seeds, node) {
                let seed = choose|seed: u32| #[trigger]
                    given.nodes.dom().contains(seed) && connects(given, seeds, seed, node);
                assert(indices@.to_set().contains(seed));
                let k = indices@.index_of(seed);
                assert(connects(given, seeds, indices@[k], node));
            }
        }
        lemma_restricted_whole(given);
    }
    let ghost mut keep = given.nodes.dom();
    let mut j: usize = 0;
    while j < indices.len()
        invariant
            j <= indices.len(),
            given.wf(),
            graph::ascending(indices@),
            indices@.to_set() == given.nodes.dom(),
            vfg@.wf(),
            vfg@ == restricted(given, keep),
            forall|node: u32| #[trigger]
                keep.contains(node) <==> given.nodes.dom().contains(node) && (survivors(
                    given,
                    seeds,
                ).contains(node) || !indices@.take(j as int).contains(node)),
            forall|node: u32| #[trigger]
                reachable@.contains(node as usize) <==> connected(given, seeds, node),
        decreases indices.len() - j,
    {
        let node = indices[j];
        let ghost done = indices@.take(j as int);
        let ghost next = indices@.take(j + 1);
        proof {
            assert(indices@.to_set().contains(node));
            assert(next =~= done.push(node));
            if done.contains(node) {
                let k = done.index_of(node);
                assert(indices@[k] < indices@[j as int]);
            }
            assert(keep.contains(node));
            assert forall|other: u32| next.contains(other) <==> done.contains(other) || other
                == node by {
                if done.contains(other) {
                    assert(next[done.index_of(other)] == other);
                }
                assert(next[j as int] == node);
                if next.contains(other) {
                    let k = next.index_of(other);
                    if k < j {
                        assert(done[k] == other);
                    }
                }
            }
        }
        let ghost before = keep;
        assert(vfg@.nodes[node] == given.nodes[node]);
        let useful = reachable.contains(node as usize) || is_self_sufficient(&vfg.node(node).kind);
        assert(reachable@.contains(node as usize) <==> connected(given, seeds, node));
        assert(given.nodes.dom().contains(node));
        assert(useful == survivors(given, seeds).contains(node));
        if !useful {
            vfg.remove_node(node);
            proof {
                lemma_restricted_without(given, keep, node);
                keep = keep.remove(node);
            }
        }
        proof {
            assert forall|other: u32| #[trigger]
                keep.contains(other) <==> given.nodes.dom().contains(other) && (survivors(
                    given,
                    seeds,
                ).contains(other) || !next.contains(other)) by {
                assert(before.contains(other) <==> given.nodes.dom().contains(other) && (survivors(
                    given,
                    seeds,
                ).contains(other) || !done.contains(other)));
            }
        }
        j += 1;
    }
    proof {
        assert(indices@.take(j as int) =~= indices@);
        assert forall|node: u32| keep.contains(node) <==> survivors(given, seeds).contains(node) by {
            if given.nodes.dom().contains(node) {
                assert(indices@.to_set().contains(node));
            }
        }
        assert(keep =~= survivors(given, seeds));
    }
}

/// Remove nodes not reachable from any source: an `Emission` or a `Reset`.
///
/// A collector with steps is kept whatever reaches it. Absorption leaves collectors that nothing
/// propagates into, and their steps are still angles to synthesize.
pub fn prune_unreachable_from_sources(vfg: &mut VirtualFlowGraph)
    requires
        old(vfg)@.wf(),
    ensures
        final(vfg)@.wf(),
        final(vfg)@ == restricted(old(vfg)@, kept_from_sources(old(vfg)@)),
{
    let ghost given = vfg@;
    prune_unreachable(vfg, Seeds::Sources);
    assert(survivors(given, Seeds::Sources) =~= kept_from_sources(given));
}

/// Remove nodes that cannot reach any sink: a `Collect` or a `Measure`.
///
/// A sink is its own seed, so this drops only the nodes upstream of nothing. A collector with steps is
/// kept here too, for the same reason as in the source pass.
pub fn prune_unreachable_from_sinks(vfg: &mut VirtualFlowGraph)
    requires
        old(vfg)@.wf(),
    ensures
        final(vfg)@.wf(),
        final(vfg)@ == restricted(old(vfg)@, kept_from_sinks(old(vfg)@)),
{
    let ghost given = vfg@;
    prune_unreachable(vfg, Seeds::Sinks);
    assert(survivors(given, Seeds::Sinks) =~= kept_from_sinks(given));
}

/// The nodes the source pass keeps: what some source reaches, and the collectors with steps.
pub open spec fn kept_from_sources(graph: GraphModel) -> Set<u32> {
    Set::new(
        |node: u32|
            graph.nodes.dom().contains(node) && (fed(graph, node) || self_sufficient(
                graph.nodes[node].kind,
            )),
    )
}

/// The nodes the sink pass keeps: what reaches some sink, and the collectors with steps.
pub open spec fn kept_from_sinks(graph: GraphModel) -> Set<u32> {
    Set::new(
        |node: u32|
            graph.nodes.dom().contains(node) && (drained(graph, node) || self_sufficient(
                graph.nodes[node].kind,
            )),
    )
}

/// A node reaches itself.
pub proof fn lemma_reaches_itself(edges: Map<u32, (u32, u32, Edge)>, node: u32)
    ensures
        reaches(edges, node, node),
{
    let path = seq![node];
    assert(graph::is_path(edges, path));
    assert(path[0] == node && path.last() == node);
}

/// No sink is ever pruned as a dead end, and no source as unreachable.
pub proof fn lemma_ends_survive(graph: GraphModel, node: u32)
    requires
        graph.nodes.dom().contains(node),
    ensures
        graph.nodes[node].kind.source() ==> kept_from_sources(graph).contains(node),
        graph.nodes[node].kind.sink() ==> kept_from_sinks(graph).contains(node),
{
    lemma_reaches_itself(graph.edges, node);
}

/// A collector with steps survives both passes, however isolated it is.
pub proof fn lemma_collector_with_steps_survives(graph: GraphModel, node: u32)
    requires
        graph.nodes.dom().contains(node),
        self_sufficient(graph.nodes[node].kind),
    ensures
        kept_from_sources(graph).contains(node),
        kept_from_sinks(graph).contains(node),
{
}

/// A path between kept nodes of the source pass is still a path afterwards: whatever a kept source
/// reaches is kept with every node on the way.
pub proof fn lemma_pruned_paths_survive(graph: GraphModel, path: Seq<u32>)
    requires
        graph.wf(),
        graph::is_path(graph.edges, path),
        graph.nodes.dom().contains(path[0]),
        graph.nodes[path[0]].kind.source(),
    ensures
        graph::is_path(restricted(graph, kept_from_sources(graph)).edges, path),
        forall|k: int| 0 <= k < path.len() ==> kept_from_sources(graph).contains(#[trigger] path[k]),
{
    let keep = kept_from_sources(graph);
    let after = restricted(graph, keep);
    assert forall|k: int| 0 <= k < path.len() implies keep.contains(#[trigger] path[k]) by {
        let prefix = path.take(k + 1);
        assert(graph::is_path(graph.edges, prefix)) by {
            assert forall|i: int| 0 <= i < prefix.len() - 1 implies graph::linked(
                graph.edges,
                #[trigger] prefix[i],
                prefix[i + 1],
            ) by {
                assert(graph::linked(graph.edges, path[i], path[i + 1]));
            }
        }
        assert(prefix[0] == path[0] && prefix.last() == path[k]);
        assert(reaches(graph.edges, path[0], path[k]));
        assert(fed(graph, path[k]));
        if k > 0 {
            assert(graph::linked(graph.edges, path[k - 1], path[k - 1 + 1]));
        }
    }
    assert forall|i: int| 0 <= i < path.len() - 1 implies graph::linked(
        after.edges,
        #[trigger] path[i],
        path[i + 1],
    ) by {
        assert(graph::linked(graph.edges, path[i], path[i + 1]));
        let id = choose|id: u32| #[trigger]
            graph.edges.dom().contains(id) && graph.edges[id].0 == path[i] && graph.edges[id].1
                == path[i + 1];
        assert(keep.contains(path[i]) && keep.contains(path[i + 1]));
        assert(after.edges.dom().contains(id));
    }
}

/// Keeping some of the nodes kept is keeping those at once.
proof fn lemma_restricted_twice(graph: GraphModel, keep: Set<u32>, fewer: Set<u32>)
    requires
        graph.wf(),
        fewer.subset_of(keep),
        keep.subset_of(graph.nodes.dom()),
    ensures
        restricted(restricted(graph, keep), fewer) == restricted(graph, fewer),
{
    let now = restricted(graph, keep);
    let after = restricted(now, fewer);
    let want = restricted(graph, fewer);
    assert(after.nodes =~= want.nodes);
    assert(after.edges =~= want.edges);
    assert(after.outgoing.dom() =~= want.outgoing.dom());
    assert(after.incoming.dom() =~= want.incoming.dom());
    let first = between(graph.edges, keep);
    let second = between(now.edges, fewer);
    let both = between(graph.edges, fewer);
    assert forall|n: u32| after.outgoing.dom().contains(n) implies #[trigger] after.outgoing[n]
        == want.outgoing[n] by {
        let list = graph.outgoing[n];
        assert forall|k: int| 0 <= k < list.len() implies both(#[trigger] list[k]) == (first(
            list[k],
        ) && second(list[k])) by {
            assert(list.contains(list[k]));
            assert(graph.edges.dom().contains(list[k]));
        }
        lemma_filter_twice(list, first, second, both);
    }
    assert forall|n: u32| after.incoming.dom().contains(n) implies #[trigger] after.incoming[n]
        == want.incoming[n] by {
        let list = graph.incoming[n];
        assert forall|k: int| 0 <= k < list.len() implies both(#[trigger] list[k]) == (first(
            list[k],
        ) && second(list[k])) by {
            assert(list.contains(list[k]));
            assert(graph.edges.dom().contains(list[k]));
        }
        lemma_filter_twice(list, first, second, both);
    }
    assert(after.outgoing =~= want.outgoing);
    assert(after.incoming =~= want.incoming);
    assert(after =~= want);
}

/// A path of kept nodes is a path among them, and a path among them was one before.
proof fn lemma_paths_among(graph: GraphModel, keep: Set<u32>, path: Seq<u32>)
    ensures
        graph::is_path(graph.edges, path) && (forall|k: int|
            0 <= k < path.len() ==> keep.contains(#[trigger] path[k])) ==> graph::is_path(
            restricted(graph, keep).edges,
            path,
        ),
        graph::is_path(restricted(graph, keep).edges, path) ==> graph::is_path(graph.edges, path),
{
    let after = restricted(graph, keep);
    if graph::is_path(graph.edges, path) && (forall|k: int|
        0 <= k < path.len() ==> keep.contains(#[trigger] path[k])) {
        assert forall|i: int| 0 <= i < path.len() - 1 implies graph::linked(
            after.edges,
            #[trigger] path[i],
            path[i + 1],
        ) by {
            assert(graph::linked(graph.edges, path[i], path[i + 1]));
            let id = choose|id: u32| #[trigger]
                graph.edges.dom().contains(id) && graph.edges[id].0 == path[i] && graph.edges[id].1
                    == path[i + 1];
            assert(keep.contains(path[i]) && keep.contains(path[i + 1]));
            assert(after.edges.dom().contains(id));
        }
    }
    if graph::is_path(after.edges, path) {
        assert forall|i: int| 0 <= i < path.len() - 1 implies graph::linked(
            graph.edges,
            #[trigger] path[i],
            path[i + 1],
        ) by {
            assert(graph::linked(after.edges, path[i], path[i + 1]));
            let id = choose|id: u32| #[trigger]
                after.edges.dom().contains(id) && after.edges[id].0 == path[i] && after.edges[id].1
                    == path[i + 1];
            assert(graph.edges.dom().contains(id));
        }
    }
}

/// What a part of a path leads from and to.
proof fn lemma_part_of_path(graph: GraphModel, path: Seq<u32>, from: int, to: int)
    requires
        graph::is_path(graph.edges, path),
        0 <= from <= to < path.len(),
    ensures
        reaches(graph.edges, path[from], path[to]),
        graph.wf() && graph.nodes.dom().contains(path[0]) ==> graph.nodes.dom().contains(path[to]),
{
    let part = path.subrange(from, to + 1);
    assert(graph::is_path(graph.edges, part)) by {
        assert forall|i: int| 0 <= i < part.len() - 1 implies graph::linked(
            graph.edges,
            #[trigger] part[i],
            part[i + 1],
        ) by {
            assert(graph::linked(graph.edges, path[from + i], path[from + i + 1]));
        }
    }
    assert(part[0] == path[from] && part.last() == path[to]);
    if graph.wf() && to > 0 {
        assert(graph::linked(graph.edges, path[to - 1], path[to - 1 + 1]));
    }
}

/// The two passes leave the same graph in either order: what some source reaches and what reaches some sink, and
/// the collectors with steps.
pub proof fn lemma_prunes_commute(graph: GraphModel)
    requires
        graph.wf(),
    ensures
        ({
            let fed_first = restricted(graph, kept_from_sources(graph));
            let drained_first = restricted(graph, kept_from_sinks(graph));
            &&& restricted(fed_first, kept_from_sinks(fed_first)) == restricted(
                drained_first,
                kept_from_sources(drained_first),
            )
            &&& restricted(fed_first, kept_from_sinks(fed_first)) == restricted(
                graph,
                Set::new(
                    |node: u32|
                        graph.nodes.dom().contains(node) && (fed(graph, node) && drained(
                            graph,
                            node,
                        ) || self_sufficient(graph.nodes[node].kind)),
                ),
            )
        }),
{
    let sources = kept_from_sources(graph);
    let sinks = kept_from_sinks(graph);
    let fed_first = restricted(graph, sources);
    let drained_first = restricted(graph, sinks);
    let both = Set::new(
        |node: u32|
            graph.nodes.dom().contains(node) && (fed(graph, node) && drained(graph, node)
                || self_sufficient(graph.nodes[node].kind)),
    );
    assert forall|node: u32| kept_from_sinks(fed_first).contains(node) <==> both.contains(node) by {
        if kept_from_sinks(fed_first).contains(node) && !self_sufficient(graph.nodes[node].kind) {
            let seed = choose|seed: u32| #[trigger]
                fed_first.nodes.dom().contains(seed) && fed_first.nodes[seed].kind.sink() && reaches(
                    fed_first.edges,
                    node,
                    seed,
                );
            let path = choose|path: Seq<u32>| #[trigger]
                graph::is_path(fed_first.edges, path) && path[0] == node && path.last() == seed;
            lemma_paths_among(graph, sources, path);
            assert(reaches(graph.edges, node, seed));
            assert(graph.nodes.dom().contains(seed));
            assert(drained(graph, node));
        }
        if both.contains(node) && fed(graph, node) && drained(graph, node) {
            let start = choose|seed: u32| #[trigger]
                graph.nodes.dom().contains(seed) && graph.nodes[seed].kind.source() && reaches(
                    graph.edges,
                    seed,
                    node,
                );
            let led = choose|path: Seq<u32>| #[trigger]
                graph::is_path(graph.edges, path) && path[0] == start && path.last() == node;
            let end = choose|seed: u32| #[trigger]
                graph.nodes.dom().contains(seed) && graph.nodes[seed].kind.sink() && reaches(
                    graph.edges,
                    node,
                    seed,
                );
            let path = choose|path: Seq<u32>| #[trigger]
                graph::is_path(graph.edges, path) && path[0] == node && path.last() == end;
            let whole = led + path.drop_first();
            lemma_joined_path(graph, led, path);
            assert forall|k: int| 0 <= k < path.len() implies sources.contains(#[trigger] path[k]) by {
                let at = led.len() - 1 + k;
                assert(whole[at] == path[k]);
                lemma_part_of_path(graph, whole, 0, at);
                assert(fed(graph, path[k]));
            }
            lemma_paths_among(graph, sources, path);
            assert(path[path.len() - 1] == end);
            assert(sources.contains(path[path.len() - 1]));
            assert(fed_first.nodes.dom().contains(end));
            assert(reaches(fed_first.edges, node, end));
            assert(drained(fed_first, node));
        }
    }
    assert(kept_from_sinks(fed_first) =~= both);
    assert forall|node: u32| kept_from_sources(drained_first).contains(node) <==> both.contains(node) by {
        if kept_from_sources(drained_first).contains(node) && !self_sufficient(
            graph.nodes[node].kind,
        ) {
            let seed = choose|seed: u32| #[trigger]
                drained_first.nodes.dom().contains(seed) && drained_first.nodes[seed].kind.source()
                    && reaches(drained_first.edges, seed, node);
            let path = choose|path: Seq<u32>| #[trigger]
                graph::is_path(drained_first.edges, path) && path[0] == seed && path.last() == node;
            lemma_paths_among(graph, sinks, path);
            assert(reaches(graph.edges, seed, node));
            assert(graph.nodes.dom().contains(seed));
            assert(fed(graph, node));
        }
        if both.contains(node) && fed(graph, node) && drained(graph, node) {
            let start = choose|seed: u32| #[trigger]
                graph.nodes.dom().contains(seed) && graph.nodes[seed].kind.source() && reaches(
                    graph.edges,
                    seed,
                    node,
                );
            let path = choose|path: Seq<u32>| #[trigger]
                graph::is_path(graph.edges, path) && path[0] == start && path.last() == node;
            let end = choose|seed: u32| #[trigger]
                graph.nodes.dom().contains(seed) && graph.nodes[seed].kind.sink() && reaches(
                    graph.edges,
                    node,
                    seed,
                );
            let on = choose|path: Seq<u32>| #[trigger]
                graph::is_path(graph.edges, path) && path[0] == node && path.last() == end;
            let whole = path + on.drop_first();
            lemma_joined_path(graph, path, on);
            assert forall|k: int| 0 <= k < path.len() implies sinks.contains(#[trigger] path[k]) by {
                assert(whole[k] == path[k]);
                lemma_part_of_path(graph, whole, 0, k);
                lemma_part_of_path(graph, whole, k, whole.len() - 1);
                assert(drained(graph, path[k]));
            }
            lemma_paths_among(graph, sinks, path);
            assert(sinks.contains(path[0]));
            assert(drained_first.nodes.dom().contains(start));
            assert(reaches(drained_first.edges, start, node));
            assert(fed(drained_first, node));
        }
        if both.contains(node) && self_sufficient(graph.nodes[node].kind) {
            assert(sinks.contains(node));
        }
    }
    assert(kept_from_sources(drained_first) =~= both);
    lemma_restricted_twice(graph, sources, both);
    assert(both.subset_of(sinks));
    lemma_restricted_twice(graph, sinks, both);
}

/// Two paths, the second going on where the first ends, are one.
proof fn lemma_joined_path(graph: GraphModel, first: Seq<u32>, second: Seq<u32>)
    requires
        graph::is_path(graph.edges, first),
        graph::is_path(graph.edges, second),
        first.last() == second[0],
    ensures
        graph::is_path(graph.edges, first + second.drop_first()),
        (first + second.drop_first())[0] == first[0],
        (first + second.drop_first()).last() == second.last(),
{
    let whole = first + second.drop_first();
    assert forall|i: int| 0 <= i < whole.len() - 1 implies graph::linked(
        graph.edges,
        #[trigger] whole[i],
        whole[i + 1],
    ) by {
        if i + 1 < first.len() {
            assert(graph::linked(graph.edges, first[i], first[i + 1]));
        } else {
            let k = i + 1 - first.len();
            assert(graph::linked(graph.edges, second[k], second[k + 1]));
        }
    }
}

} // verus!
