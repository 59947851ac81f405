//! Readouts of a graph: lists and text for inspection.

use vstd::prelude::*;
use vstd::string::*;

use crate::collections::IndexMap;
use crate::distributions::DistEntry;
use crate::distributions::DistEntryModel;
use crate::graph;
use crate::graph::ascending;
use crate::partition::groups_of;
use crate::partition::nested;
use crate::partition::total;
use crate::text;
use crate::text::decimal_text;
use crate::text::nested_numbers_text;
use crate::text::numbers_text;
use crate::text::quoted_text;
use crate::virtual_flow_graph::CollectStep;
use crate::virtual_flow_graph::CollectStepModel;
use crate::virtual_flow_graph::Direction;
use crate::virtual_flow_graph::Edge;
use crate::virtual_flow_graph::GraphModel;
use crate::virtual_flow_graph::Node;
use crate::virtual_flow_graph::NodeKind;
use crate::virtual_flow_graph::NodeKindModel;
use crate::virtual_flow_graph::NodeModel;
use crate::virtual_flow_graph::VirtualFlowGraph;

verus! {

// --- Order --------------------------------------------------------------------------------------

/// The numbers of a set in ascending order.
pub open spec fn in_order(set: Set<u32>) -> Seq<u32> {
    choose|list: Seq<u32>| ascending(list) && #[trigger] list.to_set() == set
}

/// There is one way to put a set in ascending order.
pub proof fn lemma_one_order(one: Seq<u32>, other: Seq<u32>)
    requires
        ascending(one),
        ascending(other),
        one.to_set() == other.to_set(),
    ensures
        one == other,
    decreases one.len(),
{
    if one.len() == 0 {
        if other.len() > 0 {
            assert(other.to_set().contains(other[0]));
            assert(one.to_set().contains(other[0]));
        }
        assert(one =~= other);
    } else {
        assert(one.to_set().contains(one[0]));
        assert(other.contains(one[0]));
        let a = one.len() - 1;
        let b = other.len() - 1;
        assert(one.to_set().contains(one[a]));
        assert(other.contains(one[a]));
        assert(other.to_set().contains(other[b]));
        assert(one.contains(other[b]));
        let i = other.index_of(one[a]);
        let j = one.index_of(other[b]);
        assert(other[i] == one[a]);
        assert(one[j] == other[b]);
        assert(one[a] == other[b]) by {
            if i < b {
                assert(other[i] < other[b]);
            }
            if j < a {
                assert(one[j] < one[a]);
            }
        }
        let few = one.drop_last();
        let less = other.drop_last();
        assert(ascending(few)) by {
            assert forall|x: int, y: int| 0 <= x < y < few.len() implies #[trigger] few[x]
                < #[trigger] few[y] by {
                assert(one[x] < one[y]);
            }
        }
        assert(ascending(less)) by {
            assert forall|x: int, y: int| 0 <= x < y < less.len() implies #[trigger] less[x]
                < #[trigger] less[y] by {
                assert(other[x] < other[y]);
            }
        }
        assert forall|n: u32| #[trigger] few.to_set().contains(n) <==> less.to_set().contains(n) by {
            if few.contains(n) {
                let k = few.index_of(n);
                assert(one[k] == n);
                assert(one[k] < one[a]);
                assert(one.to_set().contains(n));
                assert(other.contains(n));
                let l = other.index_of(n);
                assert(other[l] == n);
                assert(less[l] == n);
            }
            if less.contains(n) {
                let k = less.index_of(n);
                assert(other[k] == n);
                assert(other[k] < other[b]);
                assert(other.to_set().contains(n));
                assert(one.contains(n));
                let l = one.index_of(n);
                assert(one[l] == n);
                assert(few[l] == n);
            }
        }
        assert(few.to_set() =~= less.to_set());
        lemma_one_order(few, less);
        assert(one =~= few.push(one[a]));
        assert(other =~= less.push(other[b]));
    }
}

/// Numbers in ascending order are the set they make up, in order.
pub proof fn lemma_in_order(list: Seq<u32>)
    requires
        ascending(list),
    ensures
        in_order(list.to_set()) == list,
{
    lemma_one_order(in_order(list.to_set()), list);
}

/// Where a number comes in an ascending list without it.
proof fn lemma_place(list: Seq<u32>, item: u32, upto: int) -> (at: int)
    requires
        ascending(list),
        !list.contains(item),
        0 <= upto <= list.len(),
        forall|j: int| upto <= j < list.len() ==> item < #[trigger] list[j],
    ensures
        0 <= at <= list.len(),
        forall|j: int| 0 <= j < at ==> (#[trigger] list[j]) < item,
        forall|j: int| at <= j < list.len() ==> item < #[trigger] list[j],
    decreases upto,
{
    if upto == 0 || list[upto - 1] < item {
        upto
    } else {
        assert(list[upto - 1] != item);
        lemma_place(list, item, upto - 1)
    }
}

/// The numbers of a set in ascending order ascend, and are the numbers of the set, each once.
pub proof fn lemma_in_order_lists_the_set(set: Set<u32>)
    requires
        set.finite(),
    ensures
        ascending(in_order(set)),
        in_order(set).to_set() == set,
        in_order(set).no_duplicates(),
        in_order(set).len() == set.len(),
    decreases set.len(),
{
    if set.len() == 0 {
        let list = Seq::<u32>::empty();
        assert(list.to_set() =~= set);
        lemma_in_order(list);
    } else {
        let item = set.choose();
        let fewer = set.remove(item);
        lemma_in_order_lists_the_set(fewer);
        let list = in_order(fewer);
        assert(!list.contains(item)) by {
            if list.contains(item) {
                assert(list.to_set().contains(item));
            }
        }
        let at = lemma_place(list, item, list.len() as int);
        let more = list.insert(at, item);
        assert forall|i: int, j: int| 0 <= i < j < more.len() implies #[trigger] more[i]
            < #[trigger] more[j] by {
            let a = if i < at {
                i
            } else {
                i - 1
            };
            let b = if j < at {
                j
            } else {
                j - 1
            };
            if i != at {
                assert(more[i] == list[a]);
            }
            if j != at {
                assert(more[j] == list[b]);
            }
        }
        assert forall|n: u32| #[trigger] more.to_set().contains(n) <==> set.contains(n) by {
            if more.contains(n) {
                let k = more.index_of(n);
                assert(more[k] == n);
                if k < at {
                    assert(list[k] == n);
                    assert(list.to_set().contains(n));
                } else if k > at {
                    assert(list[k - 1] == n);
                    assert(list.to_set().contains(n));
                }
            }
            if set.contains(n) {
                if n == item {
                    assert(more[at] == n);
                } else {
                    assert(list.to_set().contains(n));
                    let k = list.index_of(n);
                    assert(list[k] == n);
                    assert(more[if k < at {
                        k
                    } else {
                        k + 1
                    }] == n);
                }
            }
        }
        assert(more.to_set() =~= set);
        lemma_in_order(more);
    }
}

/// Whether a list is another put in ascending order.
pub open spec fn sorted_from(list: Seq<usize>, given: Seq<usize>) -> bool {
    &&& list.to_multiset() == given.to_multiset()
    &&& forall|i: int, j: int|
        0 <= i <= j < list.len() ==> (#[trigger] list[i]) <= (#[trigger] list[j])
}

proof fn lemma_insert_multiset(list: Seq<usize>, at: int, item: usize)
    requires
        0 <= at <= list.len(),
    ensures
        list.insert(at, item).to_multiset() == list.to_multiset().insert(item),
{
    broadcast use vstd::seq_lib::group_to_multiset_ensures;

    let after = list.insert(at, item);
    assert(after.remove(at) =~= list);
    assert(after[at] == item);
    assert(after.contains(item));
    assert(list.to_multiset() == after.to_multiset().remove(item));
    assert(list.to_multiset().insert(item) =~= after.to_multiset());
}

/// Numbers in ascending order.
fn sorted(list: &Vec<usize>) -> (result: Vec<usize>)
    ensures
        sorted_from(result@, list@),
{
    let mut result: Vec<usize> = Vec::new();
    let mut i: usize = 0;
    assert(list@.take(0) =~= Seq::<usize>::empty());
    while i < list.len()
        invariant
            i <= list.len(),
            sorted_from(result@, list@.take(i as int)),
        decreases list.len() - i,
    {
        let item = list[i];
        let ghost known = result@;
        let mut at: usize = 0;
        while at < result.len() && result[at] <= item
            invariant
                at <= result.len(),
                result@ == known,
                forall|j: int| 0 <= j < at ==> (#[trigger] known[j]) <= item,
            decreases result.len() - at,
        {
            at += 1;
        }
        result.insert(at, item);
        proof {
            broadcast use vstd::seq_lib::group_to_multiset_ensures;

            lemma_insert_multiset(known, at as int, item);
            assert(list@.take(i + 1) =~= list@.take(i as int).push(item));
            assert forall|a: int, b: int| 0 <= a <= b < result@.len() implies (#[trigger] result@[a])
                <= (#[trigger] result@[b]) by {
                let x = if a < at {
                    a
                } else {
                    a - 1
                };
                let y = if b < at {
                    b
                } else {
                    b - 1
                };
                if a != at {
                    assert(result@[a] == known[x]);
                }
                if b != at {
                    assert(result@[b] == known[y]);
                }
                if a < at && b == at {
                    assert(known[a] <= item);
                }
                if a == at && b > at {
                    assert(known[at as int] > item);
                    assert(known[at as int] <= known[y]);
                }
                if a != at && b != at {
                    assert(known[x] <= known[y]);
                }
            }
        }
        i += 1;
    }
    assert(list@.take(i as int) =~= list@);
    result
}

// --- Nodes --------------------------------------------------------------------------------------

/// The `kind` text for an emission node. The prefix names which annotation the emission stands in for.
pub open spec fn emission_text(entry: DistEntryModel) -> Seq<char> {
    match entry {
        DistEntryModel::Distribution(distribution) => "emit:"@ + distribution.ident_text(),
        DistEntryModel::Basis { ref_id, .. } => "change_basis:"@ + ref_id,
        DistEntryModel::Noise { reference, .. } => "inject_noise:"@ + reference,
    }
}

/// The `kind` text for an emission node.
///
/// The prefix names which annotation the emission stands in for, taken from the table entry. Callers select
/// nodes by these prefixes.
pub fn emission_label(entry: &DistEntry) -> (label: String)
    ensures
        label@ == emission_text(entry@),
{
    match entry {
        DistEntry::Distribution(distribution) => {
            let mut label = String::from_str("emit:");
            label.append(distribution.ident());
            label
        },
        DistEntry::Basis { ref_id, .. } => {
            let mut label = String::from_str("change_basis:");
            label.append(ref_id.as_str());
            label
        },
        DistEntry::Noise { reference, .. } => {
            let mut label = String::from_str("inject_noise:");
            label.append(reference.as_str());
            label
        },
    }
}

/// A summary of one step of a collector: what it is, and the qubits it is on.
pub type StepSummary = (String, Vec<usize>);

/// A summary of a node: its kind, its qubits, its parameters, and the steps it composes.
pub type NodeSummary = (String, Vec<usize>, Vec<usize>, Vec<StepSummary>);

/// The `kind` text of a node.
pub open spec fn kind_text(kind: NodeKindModel) -> Seq<char> {
    match kind {
        NodeKindModel::Emission(emission) => emission_text(emission.entry),
        NodeKindModel::Collect(collect) => "collect:"@ + collect.synthesizer.ident_text(),
        NodeKindModel::Propagate(propagate) => "propagate:"@ + propagate.gate.name_text(),
        NodeKindModel::Measure(_) => "measure"@,
        NodeKindModel::Reset => "reset"@,
    }
}

/// Whether a summary is that of a step: an emission consumed, on its qubits in ascending order, or a gate folded
/// in, by name, on its qubits as they are.
pub open spec fn summarizes_step(summary: StepSummary, step: CollectStepModel) -> bool {
    match step {
        CollectStepModel::Local(local) => summary.0@ == "emit"@ && sorted_from(
            summary.1@,
            local.qubits,
        ),
        CollectStepModel::Gate(gate) => summary.0@ == gate.gate.name_text() && summary.1@
            == gate.qubits,
    }
}

/// The parameters of a node, none unless it is a collector.
pub open spec fn params_of(kind: NodeKindModel) -> Seq<usize> {
    match kind {
        NodeKindModel::Collect(collect) => collect.param_indices,
        _ => Seq::empty(),
    }
}

/// The steps of a node, none unless it is a collector.
pub open spec fn steps_of(kind: NodeKindModel) -> Seq<CollectStepModel> {
    match kind {
        NodeKindModel::Collect(collect) => collect.steps,
        _ => Seq::empty(),
    }
}

/// Whether a summary is that of a node.
pub open spec fn summarizes(summary: NodeSummary, node: NodeModel) -> bool {
    &&& summary.0@ == kind_text(node.kind)
    &&& sorted_from(summary.1@, node.qubits)
    &&& summary.2@ == params_of(node.kind)
    &&& summary.3@.len() == steps_of(node.kind).len()
    &&& forall|s: int|
        0 <= s < summary.3@.len() ==> summarizes_step(
            #[trigger] summary.3@[s],
            steps_of(node.kind)[s],
        )
}

fn step_summary(step: &CollectStep) -> (summary: StepSummary)
    ensures
        summarizes_step(summary, step@),
{
    match step {
        CollectStep::Local(local) => (String::from_str("emit"), sorted(&local.qubits)),
        CollectStep::Gate(gate) => {
            (String::from_str(gate.gate.name()), crate::partition::clone_list(&gate.qubits))
        },
    }
}

fn node_summary(node: &Node) -> (summary: NodeSummary)
    ensures
        summarizes(summary, node@),
{
    let qubits = sorted(&node.qubits);
    let mut params: Vec<usize> = Vec::new();
    let mut steps: Vec<StepSummary> = Vec::new();
    let kind = match &node.kind {
        NodeKind::Emission(emission) => emission_label(&emission.entry),
        NodeKind::Collect(collect) => {
            params = crate::partition::clone_list(&collect.param_indices);
            let mut s: usize = 0;
            while s < collect.steps.len()
                invariant
                    s <= collect.steps.len(),
                    steps@.len() == s,
                    forall|t: int|
                        0 <= t < s ==> summarizes_step(#[trigger] steps@[t], collect@.steps[t]),
                decreases collect.steps.len() - s,
            {
                assert(collect@.steps[s as int] == collect.steps@[s as int]@);
                steps.push(step_summary(&collect.steps[s]));
                s += 1;
            }
            let mut kind = String::from_str("collect:");
            kind.append(collect.synthesizer.ident());
            kind
        },
        NodeKind::Propagate(propagate) => {
            let mut kind = String::from_str("propagate:");
            kind.append(propagate.gate.name());
            kind
        },
        NodeKind::Measure(_) => String::from_str("measure"),
        NodeKind::Reset => String::from_str("reset"),
    };
    (kind, qubits, params, steps)
}

/// The word for a flow.
pub open spec fn flow_text(flow: Option<Direction>) -> Seq<char> {
    match flow {
        Some(Direction::Left) => "left"@,
        Some(Direction::Right) => "right"@,
        None => "none"@,
    }
}

// --- Text ---------------------------------------------------------------------------------------

/// The qubits of a node, grouped as it groups them: a flat list if every group is of one.
pub open spec fn grouping_text(node: NodeModel) -> Seq<char> {
    let groups = groups_of(node.partition, node.qubits);
    if forall|p: int| 0 <= p < groups.len() ==> (#[trigger] groups[p]).len() == 1 {
        numbers_text(groups.map_values(|group: Seq<usize>| group[0]))
    } else {
        nested_numbers_text(groups)
    }
}

/// The label of a node.
pub open spec fn label_text(node: NodeModel) -> Seq<char> {
    let qubits = grouping_text(node);
    match node.kind {
        NodeKindModel::Emission(emission) => (match emission.entry {
            DistEntryModel::Distribution(distribution) => "Emit("@ + distribution.ident_text(),
            DistEntryModel::Basis { mode, .. } => "ChangeBasis("@ + mode.ident_text(),
            DistEntryModel::Noise { reference, .. } => "InjectNoise("@ + reference,
        }) + ") "@ + emission.direction.mark_text() + " "@ + qubits,
        NodeKindModel::Collect(collect) => "Collect("@ + collect.synthesizer.ident_text() + ") "@
            + qubits,
        NodeKindModel::Propagate(propagate) => propagate.direction.mark_text()
            + propagate.gate.ident_text() + " "@ + qubits,
        NodeKindModel::Measure(clbits) => "Measure cl"@ + numbers_text(clbits) + " "@ + qubits,
        NodeKindModel::Reset => "Reset "@ + qubits,
    }
}

/// The colour of a node. Emissions are one kind of node but keep distinct colours, since which annotation
/// produced one is the first thing to look for in a rendered graph.
pub open spec fn color_text(kind: NodeKindModel) -> Seq<char> {
    match kind {
        NodeKindModel::Emission(emission) => match emission.entry {
            DistEntryModel::Distribution(_) => "#a8d8ea"@,
            DistEntryModel::Basis { .. } => "#fff2cc"@,
            DistEntryModel::Noise { .. } => "#f8cecc"@,
        },
        NodeKindModel::Collect(_) => "#f8c8dc"@,
        NodeKindModel::Propagate(_) => "#fffacd"@,
        NodeKindModel::Measure(_) => "#d5e8d4"@,
        NodeKindModel::Reset => "#e1d5e7"@,
    }
}

/// The label of an edge. Direction is on the nodes, so an edge only ever shows what type is flowing.
pub open spec fn edge_text(edge: Edge) -> Seq<char> {
    match edge.virtual_type {
        Some(virtual_type) => virtual_type.ident_text(),
        None => Seq::empty(),
    }
}

/// The line of a node.
pub open spec fn node_line(index: u32, node: NodeModel) -> Seq<char> {
    "    n"@ + decimal_text(index as nat) + " [label="@ + quoted_text(label_text(node))
        + ", fillcolor=\""@ + color_text(node.kind) + "\"];\n"@
}

/// The line of an edge.
pub open spec fn edge_line(edge: (u32, u32, Edge)) -> Seq<char> {
    "    n"@ + decimal_text(edge.0 as nat) + " -> n"@ + decimal_text(edge.1 as nat) + " [label="@
        + quoted_text(edge_text(edge.2)) + "];\n"@
}

/// The lines of some nodes, one after another.
pub open spec fn node_lines(nodes: Map<u32, NodeModel>, order: Seq<u32>) -> Seq<char>
    decreases order.len(),
{
    if order.len() == 0 {
        Seq::empty()
    } else {
        node_lines(nodes, order.drop_last()) + node_line(order.last(), nodes[order.last()])
    }
}

/// The lines of some edges, one after another.
pub open spec fn edge_lines(edges: Map<u32, (u32, u32, Edge)>, order: Seq<u32>) -> Seq<char>
    decreases order.len(),
{
    if order.len() == 0 {
        Seq::empty()
    } else {
        edge_lines(edges, order.drop_last()) + edge_line(edges[order.last()])
    }
}

/// The lines every rendered graph starts with.
pub open spec fn dot_head() -> Seq<char> {
    "digraph VFG {\n"@ + "    rankdir=TB;\n"@
        + "    node [shape=box, style=filled, fontname=\"Helvetica\"];\n"@
}

/// A graph in the DOT language: its nodes in ascending order, then its edges.
pub open spec fn dot_text(graph: GraphModel) -> Seq<char> {
    dot_head() + node_lines(graph.nodes, in_order(graph.nodes.dom())) + edge_lines(
        graph.edges,
        in_order(graph.edges.dom()),
    ) + "}\n"@
}

/// The qubits of a node, grouped as it groups them.
fn format_partition(node: &Node) -> (text: String)
    requires
        node@.qubits.len() == total(node@.partition),
    ensures
        text@ == grouping_text(node@),
{
    let groups = node.partition.groups(node.qubits.as_slice());
    let ghost said = groups_of(node@.partition, node@.qubits);
    let mut flat: Vec<usize> = Vec::new();
    let mut p: usize = 0;
    while p < groups.len()
        invariant
            p <= groups.len(),
            said == nested(groups@),
            forall|q: int| 0 <= q < p ==> (#[trigger] said[q]).len() == 1,
            flat@ == said.take(p as int).map_values(|group: Seq<usize>| group[0]),
            said == groups_of(node@.partition, node@.qubits),
        decreases groups.len() - p,
    {
        assert(said[p as int] == groups@[p as int]@);
        if groups[p].len() != 1 {
            assert(said[p as int].len() != 1);
            let text = text::nested_numbers(&groups);
            assert(said =~= groups@.map_values(|list: Vec<usize>| list@));
            return text;
        }
        flat.push(groups[p][0]);
        assert(flat@ =~= said.take(p + 1).map_values(|group: Seq<usize>| group[0]));
        p += 1;
    }
    assert(said.take(p as int) =~= said);
    text::numbers(flat.as_slice())
}

/// The label and the colour of a node.
fn node_label_color(node: &Node) -> (result: (String, &'static str))
    requires
        node@.qubits.len() == total(node@.partition),
    ensures
        result.0@ == label_text(node@),
        result.1@ == color_text(node@.kind),
{
    let qubits = format_partition(node);
    match &node.kind {
        NodeKind::Emission(emission) => {
            let (mut label, color) = match &emission.entry {
                DistEntry::Distribution(distribution) => {
                    let mut label = String::from_str("Emit(");
                    label.append(distribution.ident());
                    (label, "#a8d8ea")
                },
                DistEntry::Basis { mode, .. } => {
                    let mut label = String::from_str("ChangeBasis(");
                    label.append(mode.ident());
                    (label, "#fff2cc")
                },
                DistEntry::Noise { reference, .. } => {
                    let mut label = String::from_str("InjectNoise(");
                    label.append(reference.as_str());
                    (label, "#f8cecc")
                },
            };
            label.append(") ");
            label.append(emission.direction.mark());
            label.append(" ");
            label.append(qubits.as_str());
            (label, color)
        },
        NodeKind::Collect(collect) => {
            let mut label = String::from_str("Collect(");
            label.append(collect.synthesizer.ident());
            label.append(") ");
            label.append(qubits.as_str());
            (label, "#f8c8dc")
        },
        NodeKind::Propagate(propagate) => {
            let mut label = String::from_str(propagate.direction.mark());
            label.append(propagate.gate.ident());
            label.append(" ");
            label.append(qubits.as_str());
            (label, "#fffacd")
        },
        NodeKind::Measure(measure) => {
            let mut label = String::from_str("Measure cl");
            label.append(text::numbers(measure.clbit_indices.as_slice()).as_str());
            label.append(" ");
            label.append(qubits.as_str());
            (label, "#d5e8d4")
        },
        NodeKind::Reset => {
            let mut label = String::from_str("Reset ");
            label.append(qubits.as_str());
            (label, "#e1d5e7")
        },
    }
}

/// The label of an edge.
fn edge_label(edge: &Edge) -> (label: String)
    ensures
        label@ == edge_text(*edge),
{
    match edge.virtual_type {
        Some(virtual_type) => String::from_str(virtual_type.ident()),
        None => String::new(),
    }
}

/// A summary of an edge: where its source and its target come among the nodes, and the word for the flow.
pub type EdgeSummary = (usize, usize, String);

/// Whether a summary is that of an edge.
pub open spec fn summarizes_edge(summary: EdgeSummary, graph: GraphModel, id: u32) -> bool {
    let edge = graph.edges[id];
    let order = in_order(graph.nodes.dom());
    &&& order.contains(edge.0)
    &&& order.contains(edge.1)
    &&& summary.0 == order.index_of(edge.0)
    &&& summary.1 == order.index_of(edge.1)
    &&& summary.2@ == flow_text(graph.nodes[edge.0].kind.flow())
}

impl VirtualFlowGraph {
    /// A summary of each node, for inspection, the nodes in ascending order of their numbers.
    ///
    /// The steps are only non-empty for a collector, and give its composition order: `emit` for a consumed
    /// emission, its own name for a gate folded into the layer. Both appear in one list because their
    /// relative order is meaningful.
    pub fn nodes(&self) -> (summaries: Vec<NodeSummary>)
        ensures
            ascending(in_order(self@.nodes.dom())),
            in_order(self@.nodes.dom()).to_set() == self@.nodes.dom(),
            summaries@.len() == in_order(self@.nodes.dom()).len(),
            forall|k: int|
                0 <= k < summaries@.len() ==> summarizes(
                    #[trigger] summaries@[k],
                    self@.nodes[in_order(self@.nodes.dom())[k]],
                ),
    {
        let order = self.node_indices();
        proof {
            lemma_in_order(order@);
        }
        let mut summaries: Vec<NodeSummary> = Vec::new();
        let mut k: usize = 0;
        while k < order.len()
            invariant
                k <= order.len(),
                order@.to_set() == self@.nodes.dom(),
                summaries@.len() == k,
                forall|j: int|
                    0 <= j < k ==> summarizes(#[trigger] summaries@[j], self@.nodes[order@[j]]),
            decreases order.len() - k,
        {
            assert(order@.to_set().contains(order@[k as int]));
            summaries.push(node_summary(self.node(order[k])));
            k += 1;
        }
        summaries
    }

    /// A summary of each edge, in ascending order of its number.
    ///
    /// The direction is read off the source node, which is where it lives. It is `none` for the nodes that carry
    /// no flow of their own.
    pub fn edges(&self) -> (summaries: Vec<EdgeSummary>)
        requires
            self@.wf(),
        ensures
            ascending(in_order(self@.edges.dom())),
            in_order(self@.edges.dom()).to_set() == self@.edges.dom(),
            summaries@.len() == in_order(self@.edges.dom()).len(),
            forall|k: int|
                0 <= k < summaries@.len() ==> summarizes_edge(
                    #[trigger] summaries@[k],
                    self@,
                    in_order(self@.edges.dom())[k],
                ),
    {
        let order = self.node_indices();
        proof {
            lemma_in_order(order@);
        }
        let mut position = IndexMap::new();
        let mut p: usize = 0;
        while p < order.len()
            invariant
                p <= order.len(),
                ascending(order@),
                forall|j: int|
                    0 <= j < p ==> position@.dom().contains((#[trigger] order@[j]) as usize)
                        && position@[order@[j] as usize] == j,
            decreases order.len() - p,
        {
            position.insert(order[p] as usize, p);
            proof {
                assert forall|j: int| 0 <= j < p implies (#[trigger] order@[j]) != order@[p as int] by {
                    assert(order@[j] < order@[p as int]);
                }
            }
            p += 1;
        }
        let edges = graph::edge_references(&self.graph);
        let ghost ids = edges@.map_values(|edge: (u32, u32, u32, Edge)| edge.0);
        proof {
            lemma_in_order(ids);
        }
        let mut summaries: Vec<EdgeSummary> = Vec::new();
        let mut k: usize = 0;
        while k < edges.len()
            invariant
                k <= edges.len(),
                self@.wf(),
                ascending(order@),
                order@.to_set() == self@.nodes.dom(),
                order@ == in_order(self@.nodes.dom()),
                forall|j: int|
                    0 <= j < order@.len() ==> position@.dom().contains(
                        (#[trigger] order@[j]) as usize,
                    ) && position@[order@[j] as usize] == j,
                ids == edges@.map_values(|edge: (u32, u32, u32, Edge)| edge.0),
                ids.to_set() == self@.edges.dom(),
                forall|j: int|
                    0 <= j < edges@.len() ==> self@.edges[(#[trigger] edges@[j]).0] == (
                        edges@[j].1,
                        edges@[j].2,
                        edges@[j].3,
                    ),
                summaries@.len() == k,
                forall|j: int|
                    0 <= j < k ==> summarizes_edge(#[trigger] summaries@[j], self@, ids[j]),
            decreases edges.len() - k,
        {
            let (id, source, target, _) = edges[k];
            proof {
                assert(ids[k as int] == id);
                assert(ids.to_set().contains(ids[k as int]));
                assert(self@.edges.dom().contains(id));
                assert(order@.to_set().contains(source));
                assert(order@.to_set().contains(target));
                assert(order@[order@.index_of(source)] == source);
                assert(order@[order@.index_of(target)] == target);
            }
            let word = match self.node(source).kind.direction() {
                Some(Direction::Left) => "left",
                Some(Direction::Right) => "right",
                None => "none",
            };
            let from = match position.get(source as usize) {
                Some(place) => place,
                None => {
                    assert(false);
                    0
                },
            };
            let to = match position.get(target as usize) {
                Some(place) => place,
                None => {
                    assert(false);
                    0
                },
            };
            summaries.push((from, to, String::from_str(word)));
            k += 1;
        }
        summaries
    }

    /// The graph in a few words.
    pub fn to_text(&self) -> (text: String)
        ensures
            text@ == "VirtualFlowGraph(nodes="@ + decimal_text(self@.nodes.dom().len()) + ", edges="@
                + decimal_text(self@.edges.dom().len()) + ")"@,
    {
        let mut text = String::from_str("VirtualFlowGraph(nodes=");
        text.append(text::decimal(self.num_nodes()).as_str());
        text.append(", edges=");
        text.append(text::decimal(self.num_edges()).as_str());
        text.append(")");
        text
    }

    /// The graph in the DOT language.
    pub fn to_dot(&self) -> (dot: String)
        requires
            self@.grouped(),
        ensures
            dot@ == dot_text(self@),
            ascending(in_order(self@.nodes.dom())),
            in_order(self@.nodes.dom()).to_set() == self@.nodes.dom(),
            ascending(in_order(self@.edges.dom())),
            in_order(self@.edges.dom()).to_set() == self@.edges.dom(),
    {
        let mut dot = String::from_str("digraph VFG {\n");
        dot.append("    rankdir=TB;\n");
        dot.append("    node [shape=box, style=filled, fontname=\"Helvetica\"];\n");
        let order = self.node_indices();
        proof {
            lemma_in_order(order@);
            assert(order@.take(0) =~= Seq::<u32>::empty());
            assert(dot@ =~= dot_head() + node_lines(self@.nodes, order@.take(0)));
        }
        let mut k: usize = 0;
        while k < order.len()
            invariant
                k <= order.len(),
                self@.grouped(),
                order@.to_set() == self@.nodes.dom(),
                dot@ == dot_head() + node_lines(self@.nodes, order@.take(k as int)),
            decreases order.len() - k,
        {
            let ghost written = dot@;
            proof {
                assert(order@.to_set().contains(order@[k as int]));
                assert(order@.take(k + 1).drop_last() =~= order@.take(k as int));
                assert(order@.take(k + 1).last() == order@[k as int]);
            }
            let (label, color) = node_label_color(self.node(order[k]));
            dot.append("    n");
            dot.append(text::decimal(order[k] as usize).as_str());
            dot.append(" [label=");
            dot.append(text::quoted(label.as_str()).as_str());
            dot.append(", fillcolor=\"");
            dot.append(color);
            dot.append("\"];\n");
            assert(dot@ =~= written + node_line(order@[k as int], self@.nodes[order@[k as int]]));
            assert(dot@ =~= dot_head() + node_lines(self@.nodes, order@.take(k + 1)));
            k += 1;
        }
        assert(order@.take(k as int) =~= order@);
        let ghost upper = dot@;
        let edges = graph::edge_references(&self.graph);
        let ghost ids = edges@.map_values(|edge: (u32, u32, u32, Edge)| edge.0);
        proof {
            lemma_in_order(ids);
            assert(ids.take(0) =~= Seq::<u32>::empty());
            assert(dot@ =~= upper + edge_lines(self@.edges, ids.take(0)));
        }
        let mut k: usize = 0;
        while k < edges.len()
            invariant
                k <= edges.len(),
                ids == edges@.map_values(|edge: (u32, u32, u32, Edge)| edge.0),
                forall|j: int|
                    0 <= j < edges@.len() ==> self@.edges[(#[trigger] edges@[j]).0] == (
                        edges@[j].1,
                        edges@[j].2,
                        edges@[j].3,
                    ),
                dot@ == upper + edge_lines(self@.edges, ids.take(k as int)),
            decreases edges.len() - k,
        {
            let ghost written = dot@;
            let (id, source, target, edge) = edges[k];
            proof {
                assert(ids[k as int] == id);
                assert(ids.take(k + 1).drop_last() =~= ids.take(k as int));
                assert(ids.take(k + 1).last() == id);
            }
            dot.append("    n");
            dot.append(text::decimal(source as usize).as_str());
            dot.append(" -> n");
            dot.append(text::decimal(target as usize).as_str());
            dot.append(" [label=");
            dot.append(text::quoted(edge_label(&edge).as_str()).as_str());
            dot.append("];\n");
            assert(dot@ =~= written + edge_line(self@.edges[id]));
            assert(dot@ =~= upper + edge_lines(self@.edges, ids.take(k + 1)));
            k += 1;
        }
        assert(ids.take(k as int) =~= ids);
        dot.append("}\n");
        dot
    }
}

} // verus!
