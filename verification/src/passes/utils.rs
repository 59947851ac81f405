//! What more than one pass over the sampling graph needs: the order nodes can be visited in.

use vstd::prelude::*;

use crate::collections::IndexMap;
use crate::graph;
use crate::virtual_flow_graph::lemma_filtered;
use crate::virtual_flow_graph::GraphModel;
use crate::virtual_flow_graph::VirtualFlowGraph;

verus! {

/// The nodes next in line once some are done: those not done themselves, with everything that leads to
/// them done.
pub open spec fn ready(graph: GraphModel, done: Set<u32>) -> Set<u32> {
    Set::new(
        |node: u32|
            graph.nodes.dom().contains(node) && !done.contains(node) && forall|id: u32| #[trigger]
                graph.edges.dom().contains(id) && graph.edges[id].1 == node ==> done.contains(
                    graph.edges[id].0,
                ),
    )
}

/// The nodes done after this many generations.
pub open spec fn settled(graph: GraphModel, generations: nat) -> Set<u32>
    decreases generations,
{
    if generations == 0 {
        Set::empty()
    } else {
        let before = settled(graph, (generations - 1) as nat);
        before.union(ready(graph, before))
    }
}

/// One generation: the nodes next in line once all earlier generations are done.
pub open spec fn generation(graph: GraphModel, index: nat) -> Set<u32> {
    ready(graph, settled(graph, index))
}

/// Whether a list of lists is the generations of a graph, all of them, each node once.
pub open spec fn are_generations(graph: GraphModel, generations: Seq<Seq<u32>>) -> bool {
    &&& forall|k: int|
        0 <= k < generations.len() ==> (#[trigger] generations[k]).no_duplicates()
            && generations[k].to_set() == generation(graph, k as nat) && generations[k].len() > 0
    &&& generation(graph, generations.len()) == Set::<u32>::empty()
}

/// How many edges to a node are still to be crossed, `crossed` being those that are.
spec fn pending(graph: GraphModel, node: u32, crossed: Set<u32>) -> nat {
    graph.incoming[node].filter(|id: u32| !crossed.contains(id)).len()
}

/// The edges that lead from done nodes.
spec fn edges_of(graph: GraphModel, done: Set<u32>) -> Set<u32> {
    Set::new(|id: u32| graph.edges.dom().contains(id) && done.contains(graph.edges[id].0))
}

proof fn lemma_filter_less(list: Seq<u32>, crossed: Set<u32>, id: u32)
    requires
        list.no_duplicates(),
        !crossed.contains(id),
    ensures
        ({
            let before = list.filter(|other: u32| !crossed.contains(other)).len();
            let after = list.filter(|other: u32| !crossed.insert(id).contains(other)).len();
            if list.contains(id) {
                before == after + 1
            } else {
                before == after
            }
        }),
    decreases list.len(),
{
    reveal(Seq::filter);
    if list.len() > 0 {
        let front = list.drop_last();
        lemma_filter_less(front, crossed, id);
        if list.last() == id {
            assert(!front.contains(id)) by {
                if front.contains(id) {
                    let k = front.index_of(id);
                    assert(list[k] == list[list.len() - 1]);
                }
            }
            assert(list[list.len() - 1] == id);
            assert(list.contains(id));
        } else {
            if list.contains(id) {
                let k = list.index_of(id);
                assert(front[k] == id);
            }
            if front.contains(id) {
                assert(list[front.index_of(id)] == id);
            }
        }
    }
}

proof fn lemma_pending_zero(graph: GraphModel, node: u32, crossed: Set<u32>)
    requires
        graph.wf(),
        graph.nodes.dom().contains(node),
    ensures
        pending(graph, node, crossed) == 0 <==> forall|id: u32| #[trigger]
            graph.edges.dom().contains(id) && graph.edges[id].1 == node ==> crossed.contains(id),
{
    let open = |id: u32| !crossed.contains(id);
    let list = graph.incoming[node];
    let left = list.filter(open);
    if left.len() == 0 {
        assert forall|id: u32| #[trigger]
            graph.edges.dom().contains(id) && graph.edges[id].1 == node implies crossed.contains(
            id,
        ) by {
            assert(list.contains(id));
            lemma_filtered(list, open, id);
        }
    } else {
        let id = left[0];
        assert(left.contains(id));
        lemma_filtered(list, open, id);
        assert(graph.edges.dom().contains(id) && graph.edges[id].1 == node);
        assert(!crossed.contains(id));
    }
}

/// What is done stays done.
pub proof fn lemma_settled_grows(graph: GraphModel, first: nat, second: nat)
    requires
        first <= second,
    ensures
        settled(graph, first).subset_of(settled(graph, second)),
    decreases second,
{
    if first < second {
        lemma_settled_grows(graph, first, (second - 1) as nat);
    }
}

/// Everything that leads to a done node is done, and done before it.
pub proof fn lemma_settled_is_closed(graph: GraphModel, generations: nat, id: u32)
    requires
        graph.edges.dom().contains(id),
        settled(graph, generations).contains(graph.edges[id].1),
    ensures
        generations > 0,
        settled(graph, (generations - 1) as nat).contains(graph.edges[id].0),
        settled(graph, generations).contains(graph.edges[id].0),
    decreases generations,
{
    if generations > 0 {
        let before = settled(graph, (generations - 1) as nat);
        if before.contains(graph.edges[id].1) {
            lemma_settled_is_closed(graph, (generations - 1) as nat, id);
            lemma_settled_grows(graph, (generations - 2) as nat, (generations - 1) as nat);
        }
    }
}

/// Done nodes are nodes of the graph.
pub proof fn lemma_settled_nodes(graph: GraphModel, generations: nat)
    requires
        graph.nodes.dom().finite(),
    ensures
        settled(graph, generations).subset_of(graph.nodes.dom()),
        settled(graph, generations).finite(),
        settled(graph, generations).len() <= graph.nodes.dom().len(),
    decreases generations,
{
    if generations > 0 {
        lemma_settled_nodes(graph, (generations - 1) as nat);
    }
    assert(settled(graph, generations).subset_of(graph.nodes.dom()));
    vstd::set_lib::lemma_len_subset(settled(graph, generations), graph.nodes.dom());
}

/// Every edge leads from an earlier generation to a later one.
pub proof fn lemma_edges_lead_forward(graph: GraphModel, index: nat, id: u32)
    requires
        graph.edges.dom().contains(id),
        generation(graph, index).contains(graph.edges[id].1),
    ensures
        settled(graph, index).contains(graph.edges[id].0),
        !generation(graph, index).contains(graph.edges[id].0),
{
}

/// A node is in one generation at most.
pub proof fn lemma_generations_are_disjoint(graph: GraphModel, first: nat, second: nat, node: u32)
    requires
        generation(graph, first).contains(node),
        generation(graph, second).contains(node),
    ensures
        first == second,
{
    if first < second {
        assert(settled(graph, first + 1).contains(node));
        lemma_settled_grows(graph, first + 1, second);
    } else if second < first {
        assert(settled(graph, second + 1).contains(node));
        lemma_settled_grows(graph, second + 1, first);
    }
}

/// Compute topological generations by counting, for each node, the edges to it still to be crossed.
pub fn topological_generations(vfg: &VirtualFlowGraph) -> (generations: Vec<Vec<u32>>)
    requires
        vfg@.wf(),
    ensures
        are_generations(vfg@, crate::partition::nested(generations@)),
{
    let ghost graph = vfg@;
    let indices = vfg.node_indices();
    let mut in_degree = IndexMap::new();
    let mut queue: Vec<u32> = Vec::new();
    let ghost none: Set<u32> = Set::empty();
    let mut i: usize = 0;
    while i < indices.len()
        invariant
            i <= indices.len(),
            graph == vfg@,
            graph.wf(),
            graph::ascending(indices@),
            indices@.to_set() == graph.nodes.dom(),
            none == Set::<u32>::empty(),
            forall|k: int|
                0 <= k < i ==> in_degree@.dom().contains((#[trigger] indices@[k]) as usize)
                    && in_degree@[indices@[k] as usize] == pending(graph, indices@[k], none),
            queue@.no_duplicates(),
            forall|node: u32| #[trigger]
                queue@.contains(node) <==> indices@.take(i as int).contains(node) && pending(
                    graph,
                    node,
                    none,
                ) == 0,
        decreases indices.len() - i,
    {
        let node = indices[i];
        let ghost done = indices@.take(i as int);
        let ghost next = indices@.take(i + 1);
        proof {
            assert(indices@.to_set().contains(node));
            assert(graph.nodes.dom().contains(node));
            assert(next =~= done.push(node));
            if done.contains(node) {
                let k = done.index_of(node);
                assert(indices@[k] < indices@[i as int]);
            }
            assert forall|other: u32| next.contains(other) <==> done.contains(other) || other
                == node by {
                if done.contains(other) {
                    assert(next[done.index_of(other)] == other);
                }
                assert(next[i as int] == node);
                if next.contains(other) {
                    let k = next.index_of(other);
                    if k < i {
                        assert(done[k] == other);
                    }
                }
            }
        }
        let incoming = graph::edges_to(&vfg.graph, node);
        let degree: usize = incoming.len();
        proof {
            lemma_all_open(graph.incoming[node], none);
        }
        in_degree.insert(node as usize, degree);
        let ghost before = queue@;
        if degree == 0 {
            queue.push(node);
        }
        proof {
            assert forall|other: u32| #[trigger]
                queue@.contains(other) <==> next.contains(other) && pending(graph, other, none)
                    == 0 by {
                if before.contains(other) {
                    assert(queue@[before.index_of(other)] == other);
                }
                if degree == 0 {
                    assert(queue@[before.len() as int] == node);
                    if queue@.contains(other) && other != node {
                        assert(before[queue@.index_of(other)] == other);
                    }
                }
            }
            assert(!before.contains(node));
            assert(queue@.no_duplicates());
            assert forall|k: int| 0 <= k < i + 1 implies in_degree@.dom().contains(
                (#[trigger] indices@[k]) as usize,
            ) && in_degree@[indices@[k] as usize] == pending(graph, indices@[k], none) by {
                if k < i {
                    assert(indices@[k] < indices@[i as int]);
                }
            }
        }
        i += 1;
    }
    let mut generations: Vec<Vec<u32>> = Vec::new();
    proof {
        assert(indices@.take(i as int) =~= indices@);
        assert(edges_of(graph, settled(graph, 0)) =~= none);
        assert forall|node: u32| #[trigger] graph.nodes.dom().contains(node) implies in_degree@.dom().contains(
            node as usize,
        ) && in_degree@[node as usize] == pending(graph, node, none) by {
            assert(indices@.to_set().contains(node));
            let k = indices@.index_of(node);
            assert(indices@[k] == node);
        }
        assert forall|node: u32| #[trigger] queue@.contains(node) <==> generation(graph, 0).contains(
            node,
        ) by {
            if indices@.contains(node) {
                assert(indices@.to_set().contains(node));
                lemma_pending_zero(graph, node, none);
            }
            if graph.nodes.dom().contains(node) {
                assert(indices@.to_set().contains(node));
                lemma_pending_zero(graph, node, none);
            }
        }
        assert(queue@.to_set() =~= generation(graph, 0));
    }
    while queue.len() > 0
        invariant
            graph == vfg@,
            graph.wf(),
            queue@.no_duplicates(),
            queue@.to_set() == generation(graph, generations@.len()),
            forall|node: u32| #[trigger]
                graph.nodes.dom().contains(node) ==> in_degree@.dom().contains(node as usize)
                    && in_degree@[node as usize] == pending(
                    graph,
                    node,
                    edges_of(graph, settled(graph, generations@.len())),
                ),
            forall|k: int|
                0 <= k < generations@.len() ==> (#[trigger] generations@[k])@.no_duplicates()
                    && generations@[k]@.to_set() == generation(graph, k as nat)
                    && generations@[k]@.len() > 0,
        decreases graph.nodes.dom().len() - settled(graph, generations@.len()).len(),
    {
        let ghost round = generations@.len();
        let ghost done = settled(graph, round);
        let ghost after = settled(graph, round + 1);
        let current: Vec<u32> = queue;
        queue = Vec::new();
        let ghost mut crossed = edges_of(graph, done);
        let ghost mut passed: Set<u32> = done;
        proof {
            assert(current@.take(0).to_set() =~= Set::<u32>::empty());
            assert(passed =~= done.union(current@.take(0).to_set()));
            assert forall|node: u32| #[trigger] graph.nodes.dom().contains(node) && !after.contains(
                node,
            ) implies pending(graph, node, crossed) != 0 by {
                lemma_pending_zero(graph, node, crossed);
                if pending(graph, node, crossed) == 0 {
                    assert forall|id: u32| #[trigger]
                        graph.edges.dom().contains(id) && graph.edges[id].1 == node implies
                        done.contains(graph.edges[id].0) by {
                        assert(crossed.contains(id));
                    }
                    assert(ready(graph, done).contains(node));
                }
            }
        }
        let mut i: usize = 0;
        while i < current.len()
            invariant
                i <= current.len(),
                graph == vfg@,
                graph.wf(),
                done == settled(graph, round),
                after == settled(graph, round + 1),
                current@.no_duplicates(),
                current@.to_set() == generation(graph, round),
                passed == done.union(current@.take(i as int).to_set()),
                crossed == edges_of(graph, passed),
                queue@.no_duplicates(),
                forall|node: u32| #[trigger]
                    queue@.contains(node) <==> graph.nodes.dom().contains(node) && !after.contains(
                        node,
                    ) && pending(graph, node, crossed) == 0,
                forall|node: u32| #[trigger]
                    graph.nodes.dom().contains(node) ==> in_degree@.dom().contains(node as usize)
                        && in_degree@[node as usize] == pending(graph, node, crossed),
            decreases current.len() - i,
        {
            let node = current[i];
            proof {
                assert(current@.to_set().contains(node));
                assert(generation(graph, round).contains(node));
                assert(!passed.contains(node)) by {
                    if current@.take(i as int).to_set().contains(node) {
                        let k = current@.take(i as int).index_of(node);
                        assert(current@[k] == current@[i as int]);
                    }
                }
            }
            let outgoing = graph::edges_from(&vfg.graph, node);
            let ghost list = graph.outgoing[node];
            let ghost start = crossed;
            let mut j: usize = 0;
            while j < outgoing.len()
                invariant
                    j <= outgoing.len(),
                    graph == vfg@,
                    graph.wf(),
                    graph.nodes.dom().contains(node),
                    generation(graph, round).contains(node),
                    after == settled(graph, round + 1),
                    list == graph.outgoing[node],
                    outgoing@.len() == list.len(),
                    forall|k: int|
                        0 <= k < outgoing@.len() ==> (#[trigger] outgoing@[k]).0 == list[k]
                            && outgoing@[k].1 == graph.edges[list[k]].1,
                    !passed.contains(node),
                    start == edges_of(graph, passed),
                    crossed == start.union(list.take(j as int).to_set()),
                    queue@.no_duplicates(),
                    forall|other: u32| #[trigger]
                        queue@.contains(other) <==> graph.nodes.dom().contains(other)
                            && !after.contains(other) && pending(graph, other, crossed) == 0,
                    forall|other: u32| #[trigger]
                        graph.nodes.dom().contains(other) ==> in_degree@.dom().contains(
                            other as usize,
                        ) && in_degree@[other as usize] == pending(graph, other, crossed),
                decreases outgoing.len() - j,
            {
                let ghost id = list[j as int];
                let succ = outgoing[j].1;
                proof {
                    assert(list.contains(id));
                    assert(graph.edges.dom().contains(id) && graph.edges[id].0 == node);
                    assert(graph.edges[id].1 == succ);
                    assert(graph.incoming[succ].contains(id));
                    assert(!crossed.contains(id)) by {
                        if list.take(j as int).to_set().contains(id) {
                            let k = list.take(j as int).index_of(id);
                            assert(list[k] == list[j as int]);
                        }
                    }
                    lemma_filter_less(graph.incoming[succ], crossed, id);
                    assert(crossed.insert(id) =~= start.union(list.take(j + 1).to_set())) by {
                        assert(list.take(j + 1) =~= list.take(j as int).push(id));
                        assert forall|e: u32|
                            crossed.insert(id).contains(e) <==> start.union(
                                list.take(j + 1).to_set(),
                            ).contains(e) by {
                            let done = list.take(j as int);
                            let next = list.take(j + 1);
                            if done.contains(e) {
                                assert(next[done.index_of(e)] == e);
                            }
                            assert(next[j as int] == id);
                            if next.contains(e) {
                                let k = next.index_of(e);
                                if k < j {
                                    assert(done[k] == e);
                                }
                            }
                        }
                    }
                }
                let ghost earlier = crossed;
                let ghost waiting = queue@;
                let ghost degrees = in_degree@;
                if let Some(degree) = in_degree.get(succ as usize) {
                    in_degree.insert(succ as usize, degree - 1);
                    if degree - 1 == 0 {
                        queue.push(succ);
                    }
                }
                proof {
                    crossed = crossed.insert(id);
                    assert forall|other: u32| #[trigger]
                        graph.nodes.dom().contains(other) implies in_degree@.dom().contains(
                        other as usize,
                    ) && in_degree@[other as usize] == pending(graph, other, crossed) by {
                        if other != succ {
                            assert(!graph.incoming[other].contains(id));
                            lemma_filter_less(graph.incoming[other], earlier, id);
                        }
                    }
                    // The edge just crossed leads out of the current generation, so to a node past it.
                    assert(!after.contains(succ)) by {
                        if after.contains(succ) {
                            lemma_settled_is_closed(graph, round + 1, id);
                        }
                    }
                    assert forall|other: u32| #[trigger]
                        queue@.contains(other) <==> graph.nodes.dom().contains(other)
                            && !after.contains(other) && pending(graph, other, crossed) == 0 by {
                        if other != succ && graph.nodes.dom().contains(other) {
                            assert(!graph.incoming[other].contains(id));
                            lemma_filter_less(graph.incoming[other], earlier, id);
                        }
                        if waiting.contains(other) {
                            assert(queue@[waiting.index_of(other)] == other);
                        }
                        if queue@.len() > waiting.len() {
                            assert(queue@[waiting.len() as int] == succ);
                            if queue@.contains(other) && other != succ {
                                assert(waiting[queue@.index_of(other)] == other);
                            }
                        }
                    }
                    assert(!waiting.contains(succ));
                    assert(queue@.no_duplicates());
                }
                j += 1;
            }
            proof {
                assert(list.take(j as int) =~= list);
                let next = current@.take(i + 1);
                let front = current@.take(i as int);
                assert(next =~= front.push(node));
                assert forall|other: u32| next.to_set().contains(other) <==> front.to_set().contains(
                    other,
                ) || other == node by {
                    if front.contains(other) {
                        assert(next[front.index_of(other)] == other);
                    }
                    assert(next[i as int] == node);
                    if next.contains(other) {
                        let k = next.index_of(other);
                        if k < i {
                            assert(front[k] == other);
                        }
                    }
                }
                let wider = done.union(next.to_set());
                assert(wider =~= passed.insert(node));
                assert(crossed =~= edges_of(graph, wider)) by {
                    assert forall|id: u32|
                        crossed.contains(id) <==> edges_of(graph, wider).contains(id) by {
                        assert(graph.outgoing[node].contains(id) <==> graph.edges.dom().contains(id)
                            && graph.edges[id].0 == node);
                    }
                }
                passed = wider;
            }
            i += 1;
        }
        proof {
            assert(current@.take(i as int) =~= current@);
            assert(passed =~= after);
            lemma_settled_nodes(graph, round);
            lemma_settled_nodes(graph, round + 1);
            assert(current@.len() > 0);
            assert(current@.to_set().contains(current@[0]));
            assert(generation(graph, round).contains(current@[0]));
            assert(done.insert(current@[0]).subset_of(after));
            vstd::set_lib::lemma_len_subset(done.insert(current@[0]), after);
            assert forall|node: u32| #[trigger]
                queue@.contains(node) <==> generation(graph, round + 1).contains(node) by {
                if graph.nodes.dom().contains(node) {
                    lemma_pending_zero(graph, node, crossed);
                    if pending(graph, node, crossed) == 0 {
                        assert forall|id: u32| #[trigger]
                            graph.edges.dom().contains(id) && graph.edges[id].1 == node implies
                            after.contains(graph.edges[id].0) by {
                            assert(crossed.contains(id));
                        }
                    }
                    if generation(graph, round + 1).contains(node) {
                        assert forall|id: u32| #[trigger]
                            graph.edges.dom().contains(id) && graph.edges[id].1 == node implies
                            crossed.contains(id) by {
                            assert(after.contains(graph.edges[id].0));
                        }
                    }
                }
            }
            assert(queue@.to_set() =~= generation(graph, round + 1));
        }
        generations.push(current);
    }
    proof {
        assert(queue@.to_set() =~= Set::<u32>::empty());
    }
    generations
}

proof fn lemma_all_open(list: Seq<u32>, none: Set<u32>)
    requires
        none == Set::<u32>::empty(),
    ensures
        list.filter(|id: u32| !none.contains(id)) == list,
    decreases list.len(),
{
    reveal(Seq::filter);
    if list.len() > 0 {
        lemma_all_open(list.drop_last(), none);
        assert(list.drop_last().push(list.last()) =~= list);
    }
}

} // verus!
