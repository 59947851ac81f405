//! The sampling graph: a dataflow over virtual state, from the emissions that draw it to the collectors
//! that synthesize it.

use vstd::prelude::*;
use vstd::string::*;

use rustworkx_core::petgraph::stable_graph::StableGraph;
use rustworkx_core::petgraph::Directed;

use crate::annotated_circuit::SynthesizerType;
use crate::distributions::DistEntry;
use crate::distributions::DistEntryModel;
use crate::distributions::DistKey;
use crate::emission_circuit::EmitPart;
use crate::graph;
use crate::graph::graph_edges;
use crate::graph::graph_incoming;
use crate::graph::graph_nodes;
use crate::graph::graph_outgoing;
use crate::parameters::ParamKey;
use crate::partition::clone_list;
use crate::partition::singleton_parts;
use crate::partition::total;
use crate::partition::whole_parts;
use crate::partition::Partition;
use crate::standard_gate::StandardGate;
use crate::virtual_type::VirtualType;

verus! {

/// Which way virtual state flows through the circuit.
#[derive(Debug, Clone, Copy, PartialEq, Eq, Structural, Hash)]
pub enum Direction {
    Left,
    Right,
}

impl Direction {
    /// The arrow used in rendered node labels.
    pub open spec fn mark_text(self) -> Seq<char> {
        match self {
            Self::Left => "⊲"@,
            Self::Right => "⊳"@,
        }
    }

    /// The other way.
    pub open spec fn opposite_of(self) -> Direction {
        match self {
            Self::Left => Self::Right,
            Self::Right => Self::Left,
        }
    }

    /// The arrow used in rendered node labels.
    pub fn mark(&self) -> (mark: &'static str)
        ensures
            mark@ == self.mark_text(),
    {
        match self {
            Self::Left => "⊲",
            Self::Right => "⊳",
        }
    }

    /// The other way.
    pub fn opposite(&self) -> (other: Direction)
        ensures
            other == self.opposite_of(),
    {
        match self {
            Self::Left => Self::Right,
            Self::Right => Self::Left,
        }
    }
}

/// A flow of virtual state from one node to the next.
///
/// Deliberately carries no direction. Direction is fixed when an emission is created and never changes
/// along a path, so it belongs to the node the flow passes *through* rather than to each edge; see
/// [`NodeKind::direction`].
#[derive(Debug, Clone, Copy, PartialEq, Eq, Structural, Hash)]
pub struct Edge {
    pub virtual_type: Option<VirtualType>,
}

impl Edge {
    /// An edge whose type is not known yet.
    pub fn new() -> (edge: Self)
        ensures
            edge == (Edge { virtual_type: None }),
    {
        Edge { virtual_type: None }
    }
}

impl Default for Edge {
    fn default() -> (edge: Self)
        ensures
            edge == (Edge { virtual_type: None }),
    {
        Edge::new()
    }
}

/// A source of virtual gates: one node per `Emit` instruction in the emission circuit.
///
/// Twirls, basis changes and noise injections are **one** node kind rather than three, mirroring the
/// emission circuit where they are already one instruction. Which one it is is the [`DistEntry`]
/// discriminant, so nothing separate needs storing. The entry is held beside its key, so a graph is
/// readable without its table alongside.
#[derive(Debug, PartialEq, Eq)]
pub struct Emission {
    /// The key of the table entry this emission draws from.
    pub key: DistKey,
    /// What this emission draws from; its discriminant is the source tag.
    pub entry: DistEntry,
    /// Which way the emitted state flows towards the collector that consumes it.
    pub direction: Direction,
    /// The algebraic type of the emitted virtual gate.
    pub virtual_type: VirtualType,
}

/// What an emission node says.
pub struct EmissionModel {
    pub key: DistKey,
    pub entry: DistEntryModel,
    pub direction: Direction,
    pub virtual_type: VirtualType,
}

impl View for Emission {
    type V = EmissionModel;

    open spec fn view(&self) -> EmissionModel {
        EmissionModel {
            key: self.key,
            entry: self.entry@,
            direction: self.direction,
            virtual_type: self.virtual_type,
        }
    }
}

/// An angle of an absorbed gate: a number, as the bit pattern of a float, or an expression in the
/// parameter table.
#[derive(Debug, Clone, Copy, PartialEq, Eq, Structural)]
pub enum AbsorbedParam {
    Bound(u64),
    Symbolic(ParamKey),
}

/// A gate folded into a collector's synthesized layer rather than executed separately.
#[derive(Debug, PartialEq, Eq)]
pub struct AbsorbedGate {
    pub gate: StandardGate,
    /// The circuit qubits this gate acts on.
    pub qubits: Vec<usize>,
    /// Its angles.
    pub params: Vec<AbsorbedParam>,
}

/// What an absorbed gate says.
pub struct AbsorbedGateModel {
    pub gate: StandardGate,
    pub qubits: Seq<usize>,
    pub params: Seq<AbsorbedParam>,
}

impl View for AbsorbedGate {
    type V = AbsorbedGateModel;

    open spec fn view(&self) -> AbsorbedGateModel {
        AbsorbedGateModel { gate: self.gate, qubits: self.qubits@, params: self.params@ }
    }
}

impl Clone for AbsorbedGate {
    fn clone(&self) -> (copy: Self)
        ensures
            copy@ == self@,
    {
        AbsorbedGate {
            gate: self.gate,
            qubits: clone_list(&self.qubits),
            params: clone_list(&self.params),
        }
    }
}

/// An emission owned directly by its collector: adjacent to it, never propagating through gates.
///
/// At sampling time the collector reads the sampled value from the distribution table and composes it at
/// the position its local `Emit` instruction sits at in the collector body. There is no emission node for
/// it: it is folded straight into the collector's own step list.
#[derive(Debug, PartialEq, Eq)]
pub struct LocalEmission {
    /// The circuit qubits the emission acts on.
    pub qubits: Vec<usize>,
    /// How those qubits group into subsystems, by index into `qubits`.
    pub partition: Partition,
    /// Per-part descriptors, parallel with the partition.
    pub parts: Vec<EmitPart>,
}

/// What a local emission says.
pub struct LocalEmissionModel {
    pub qubits: Seq<usize>,
    pub partition: Seq<Seq<usize>>,
    pub parts: Seq<EmitPart>,
}

impl View for LocalEmission {
    type V = LocalEmissionModel;

    open spec fn view(&self) -> LocalEmissionModel {
        LocalEmissionModel {
            qubits: self.qubits@,
            partition: self.partition@,
            parts: self.parts@,
        }
    }
}

impl Clone for LocalEmission {
    fn clone(&self) -> (copy: Self)
        ensures
            copy@ == self@,
    {
        LocalEmission {
            qubits: clone_list(&self.qubits),
            partition: self.partition.clone(),
            parts: clone_list(&self.parts),
        }
    }
}

/// One step in what a collector composes.
///
/// Only what the collector *owns*: local emissions and absorbed gates. Emissions arriving along edges are
/// not recorded here.
#[derive(Debug, PartialEq, Eq)]
pub enum CollectStep {
    /// A local emission: read a value from the distribution table and compose it here.
    Local(LocalEmission),
    /// A gate folded into this layer rather than executed separately.
    Gate(AbsorbedGate),
}

/// What a step says.
pub enum CollectStepModel {
    Local(LocalEmissionModel),
    Gate(AbsorbedGateModel),
}

impl View for CollectStep {
    type V = CollectStepModel;

    open spec fn view(&self) -> CollectStepModel {
        match self {
            CollectStep::Local(local) => CollectStepModel::Local(local@),
            CollectStep::Gate(gate) => CollectStepModel::Gate(gate@),
        }
    }
}

impl Clone for CollectStep {
    fn clone(&self) -> (copy: Self)
        ensures
            copy@ == self@,
    {
        match self {
            CollectStep::Local(local) => CollectStep::Local(local.clone()),
            CollectStep::Gate(gate) => CollectStep::Gate(gate.clone()),
        }
    }
}

/// What a list of steps says, one by one.
pub open spec fn steps_model(steps: Seq<CollectStep>) -> Seq<CollectStepModel> {
    steps.map_values(|step: CollectStep| step@)
}

/// A copy of a list of steps.
pub fn clone_steps(steps: &Vec<CollectStep>) -> (copy: Vec<CollectStep>)
    ensures
        steps_model(copy@) == steps_model(steps@),
{
    let mut copy: Vec<CollectStep> = Vec::new();
    let mut i: usize = 0;
    while i < steps.len()
        invariant
            i <= steps.len(),
            copy.len() == i,
            forall|k: int| 0 <= k < i ==> (#[trigger] copy@[k])@ == steps@[k]@,
        decreases steps.len() - i,
    {
        copy.push(steps[i].clone());
        i += 1;
    }
    assert(steps_model(copy@) =~= steps_model(steps@));
    copy
}

/// The absorbed gates among a list of steps, in order.
pub open spec fn step_gates(steps: Seq<CollectStepModel>) -> Seq<AbsorbedGateModel>
    decreases steps.len(),
{
    if steps.len() == 0 {
        Seq::empty()
    } else {
        match steps.last() {
            CollectStepModel::Gate(gate) => step_gates(steps.drop_last()).push(gate),
            CollectStepModel::Local(_) => step_gates(steps.drop_last()),
        }
    }
}

/// What a list of absorbed gates says, one by one.
pub open spec fn gates_model(gates: Seq<&AbsorbedGate>) -> Seq<AbsorbedGateModel> {
    gates.map_values(|gate: &AbsorbedGate| gate@)
}

/// Filter a list of collect steps to just the absorbed gates, in order.
pub fn collect_step_gates(steps: &Vec<CollectStep>) -> (gates: Vec<&AbsorbedGate>)
    ensures
        gates_model(gates@) == step_gates(steps_model(steps@)),
{
    let ghost model = steps_model(steps@);
    let mut gates: Vec<&AbsorbedGate> = Vec::new();
    assert(gates_model(gates@) =~= Seq::<AbsorbedGateModel>::empty());
    let mut i: usize = 0;
    while i < steps.len()
        invariant
            i <= steps.len(),
            model == steps_model(steps@),
            gates_model(gates@) == step_gates(model.take(i as int)),
        decreases steps.len() - i,
    {
        let ghost before = gates_model(gates@);
        proof {
            assert(model.take(i + 1).drop_last() =~= model.take(i as int));
            assert(model.take(i + 1).last() == steps@[i as int]@);
        }
        if let CollectStep::Gate(gate) = &steps[i] {
            gates.push(gate);
            assert(gates_model(gates@) =~= before.push(gate@));
        }
        i += 1;
    }
    assert(model.take(i as int) =~= model);
    gates
}

/// A collector: where virtual state ends, to be synthesized.
///
/// The collector *owns* its absorbed gates rather than them being separate nodes on some emission's
/// chain: after merging, a collector holds absorbed gates from several boxes and there is no way to
/// attribute each to the emission it multiplies into. It is one ordered sequence rather than a set of
/// emissions plus a list of gates, because position in the layer is meaningful.
#[derive(Debug, PartialEq, Eq)]
pub struct Collect {
    pub synthesizer: SynthesizerType,
    /// Indices into the template's parameter vector.
    pub param_indices: Vec<usize>,
    /// Everything this collector composes. What the sequence guarantees is the order on each wire.
    pub steps: Vec<CollectStep>,
}

/// What a collector says.
pub struct CollectorModel {
    pub synthesizer: SynthesizerType,
    pub param_indices: Seq<usize>,
    pub steps: Seq<CollectStepModel>,
}

impl View for Collect {
    type V = CollectorModel;

    open spec fn view(&self) -> CollectorModel {
        CollectorModel {
            synthesizer: self.synthesizer,
            param_indices: self.param_indices@,
            steps: steps_model(self.steps@),
        }
    }
}

impl Collect {
    /// The absorbed gates, in order, ignoring the emissions interleaved between them.
    pub fn gates(&self) -> (gates: Vec<&AbsorbedGate>)
        ensures
            gates_model(gates@) == step_gates(self@.steps),
    {
        collect_step_gates(&self.steps)
    }
}

/// One conjugation of virtual state by a real gate.
#[derive(Debug, Clone, Copy, PartialEq, Eq, Structural)]
pub struct Propagate {
    pub gate: StandardGate,
    /// The handedness of the flow through this node, which fixes which conjugation applies.
    pub direction: Direction,
}

/// A measurement, which virtual state only flips.
#[derive(Debug, PartialEq, Eq)]
pub struct Measure {
    pub clbit_indices: Vec<usize>,
}

/// What a node does.
#[derive(Debug, PartialEq, Eq)]
pub enum NodeKind {
    Emission(Emission),
    Collect(Collect),
    Propagate(Propagate),
    Measure(Measure),
    Reset,
}

/// What a node kind says.
pub enum NodeKindModel {
    Emission(EmissionModel),
    Collect(CollectorModel),
    Propagate(Propagate),
    Measure(Seq<usize>),
    Reset,
}

impl View for NodeKind {
    type V = NodeKindModel;

    open spec fn view(&self) -> NodeKindModel {
        match self {
            NodeKind::Emission(emission) => NodeKindModel::Emission(emission@),
            NodeKind::Collect(collect) => NodeKindModel::Collect(collect@),
            NodeKind::Propagate(propagate) => NodeKindModel::Propagate(*propagate),
            NodeKind::Measure(measure) => NodeKindModel::Measure(measure.clbit_indices@),
            NodeKind::Reset => NodeKindModel::Reset,
        }
    }
}

impl NodeKindModel {
    /// Whether virtual state starts here.
    pub open spec fn source(self) -> bool {
        self is Emission || self is Reset
    }

    /// Whether virtual state ends here.
    pub open spec fn sink(self) -> bool {
        self is Collect || self is Measure
    }

    /// Which way virtual state flows out of the node, for the kinds that carry a flow at all.
    pub open spec fn flow(self) -> Option<Direction> {
        match self {
            NodeKindModel::Emission(emission) => Some(emission.direction),
            NodeKindModel::Propagate(propagate) => Some(propagate.direction),
            _ => None,
        }
    }
}

impl NodeKind {
    /// Whether virtual state starts here.
    pub fn is_source(&self) -> (yes: bool)
        ensures
            yes == self@.source(),
    {
        matches!(self, Self::Emission(_) | Self::Reset)
    }

    /// Whether virtual state ends here.
    pub fn is_sink(&self) -> (yes: bool)
        ensures
            yes == self@.sink(),
    {
        matches!(self, Self::Collect(_) | Self::Measure(_))
    }

    /// Which way virtual state flows out of this node, for the kinds that carry a flow at all.
    ///
    /// A `Propagate` node is created per handedness, so a node is never on paths of both directions at
    /// once.
    pub fn direction(&self) -> (direction: Option<Direction>)
        ensures
            direction == self@.flow(),
    {
        match self {
            Self::Emission(emission) => Some(emission.direction),
            Self::Propagate(propagate) => Some(propagate.direction),
            Self::Collect(_) | Self::Measure(_) | Self::Reset => None,
        }
    }
}

/// A node: what it does, and the qubits it does it to.
#[derive(Debug, PartialEq, Eq)]
pub struct Node {
    pub qubits: Vec<usize>,
    /// How those qubits group into subsystems, by index into `qubits`.
    pub partition: Partition,
    pub kind: NodeKind,
}

/// What a node says.
pub struct NodeModel {
    pub qubits: Seq<usize>,
    pub partition: Seq<Seq<usize>>,
    pub kind: NodeKindModel,
}

impl View for Node {
    type V = NodeModel;

    open spec fn view(&self) -> NodeModel {
        NodeModel { qubits: self.qubits@, partition: self.partition@, kind: self.kind@ }
    }
}

impl Node {
    /// A node on these qubits, grouped this way.
    pub fn new(qubits: Vec<usize>, partition: Partition, kind: NodeKind) -> (node: Self)
        ensures
            node@ == (NodeModel { qubits: qubits@, partition: partition@, kind: kind@ }),
            node.kind == kind,
    {
        Node { qubits, partition, kind }
    }

    /// A node that treats each of its qubits on its own.
    pub fn singletons(qubits: Vec<usize>, kind: NodeKind) -> (node: Self)
        ensures
            node@ == (NodeModel {
                qubits: qubits@,
                partition: singleton_parts(qubits@.len()),
                kind: kind@,
            }),
            node.kind == kind,
    {
        let partition = Partition::singletons(qubits.len());
        Node { qubits, partition, kind }
    }

    /// A node that treats its qubits jointly.
    pub fn joint(qubits: Vec<usize>, kind: NodeKind) -> (node: Self)
        ensures
            node@ == (NodeModel {
                qubits: qubits@,
                partition: whole_parts(qubits@.len()),
                kind: kind@,
            }),
            node.kind == kind,
    {
        let partition = Partition::whole(qubits.len());
        Node { qubits, partition, kind }
    }
}

/// What a sampling graph holds.
#[verifier::ext_equal]
pub struct GraphModel {
    /// The nodes, by number.
    pub nodes: Map<u32, NodeModel>,
    /// The edges, by number: where each leads from, where to, and what it carries.
    pub edges: Map<u32, (u32, u32, Edge)>,
    /// The edges leading from each node, in walking order.
    pub outgoing: Map<u32, Seq<u32>>,
    /// The edges leading to each node, in walking order.
    pub incoming: Map<u32, Seq<u32>>,
}

impl GraphModel {
    /// Whether the walking orders list exactly the edges at each node, and every edge leads from a node
    /// to a node.
    pub open spec fn wf(self) -> bool {
        &&& self.nodes.dom().finite()
        &&& self.edges.dom().finite()
        &&& self.outgoing.dom() == self.nodes.dom()
        &&& self.incoming.dom() == self.nodes.dom()
        &&& forall|id: u32| #[trigger]
            self.edges.dom().contains(id) ==> self.nodes.dom().contains(self.edges[id].0)
                && self.nodes.dom().contains(self.edges[id].1)
        &&& forall|node: u32| #[trigger]
            self.nodes.dom().contains(node) ==> self.outgoing[node].no_duplicates()
                && self.incoming[node].no_duplicates()
        &&& forall|node: u32, id: u32|
            self.nodes.dom().contains(node) ==> (#[trigger] self.outgoing[node].contains(id)
                <==> self.edges.dom().contains(id) && self.edges[id].0 == node)
        &&& forall|node: u32, id: u32|
            self.nodes.dom().contains(node) ==> (#[trigger] self.incoming[node].contains(id)
                <==> self.edges.dom().contains(id) && self.edges[id].1 == node)
    }

    /// Whether each node's qubits are as many as its partition groups.
    pub open spec fn grouped(self) -> bool {
        forall|node: u32| #[trigger]
            self.nodes.dom().contains(node) ==> self.nodes[node].qubits.len() == total(
                self.nodes[node].partition,
            )
    }
}

/// The dataflow over virtual state that lowering produces.
pub struct VirtualFlowGraph {
    pub graph: StableGraph<Node, Edge, Directed, u32>,
}

/// The same graph under the name the later stages know it by.
pub type SamplingGraph = VirtualFlowGraph;

impl View for VirtualFlowGraph {
    type V = GraphModel;

    open spec fn view(&self) -> GraphModel {
        GraphModel {
            nodes: graph_nodes(self.graph).map_values(|node: Node| node@),
            edges: graph_edges(self.graph),
            outgoing: graph_outgoing(self.graph),
            incoming: graph_incoming(self.graph),
        }
    }
}

/// A graph once a node has joined it.
pub open spec fn with_node(graph: GraphModel, index: u32, node: NodeModel) -> GraphModel {
    GraphModel {
        nodes: graph.nodes.insert(index, node),
        edges: graph.edges,
        outgoing: graph.outgoing.insert(index, Seq::empty()),
        incoming: graph.incoming.insert(index, Seq::empty()),
    }
}

/// A graph once an edge has joined it.
pub open spec fn with_edge(graph: GraphModel, id: u32, from: u32, to: u32, edge: Edge) -> GraphModel {
    GraphModel {
        nodes: graph.nodes,
        edges: graph.edges.insert(id, (from, to, edge)),
        outgoing: graph.outgoing.insert(from, seq![id] + graph.outgoing[from]),
        incoming: graph.incoming.insert(to, seq![id] + graph.incoming[to]),
    }
}

/// A graph once a node and the edges at it have left.
pub open spec fn without_node(graph: GraphModel, node: u32) -> GraphModel {
    GraphModel {
        nodes: graph.nodes.remove(node),
        edges: graph::edges_off(graph.edges, node),
        outgoing: graph::walks_off(graph.outgoing, graph.edges, node),
        incoming: graph::walks_off(graph.incoming, graph.edges, node),
    }
}

/// Joining a node keeps a graph well formed.
pub proof fn lemma_with_node_wf(graph: GraphModel, index: u32, node: NodeModel)
    requires
        graph.wf(),
        !graph.nodes.dom().contains(index),
    ensures
        with_node(graph, index, node).wf(),
        with_node(graph, index, node).nodes.dom().len() == graph.nodes.dom().len() + 1,
{
    let after = with_node(graph, index, node);
    assert(after.outgoing.dom() =~= after.nodes.dom());
    assert(after.incoming.dom() =~= after.nodes.dom());
    assert forall|id: u32| #[trigger] after.edges.dom().contains(id) implies after.nodes.dom().contains(
        after.edges[id].0,
    ) && after.nodes.dom().contains(after.edges[id].1) by {
        assert(graph.edges.dom().contains(id));
    }
    assert forall|n: u32, id: u32| after.nodes.dom().contains(n) implies (
    #[trigger] after.outgoing[n].contains(id) <==> after.edges.dom().contains(id)
        && after.edges[id].0 == n) by {
        if n != index {
            assert(graph.outgoing[n].contains(id) <==> graph.edges.dom().contains(id)
                && graph.edges[id].0 == n);
        } else if graph.edges.dom().contains(id) {
            assert(graph.nodes.dom().contains(graph.edges[id].0));
        }
    }
    assert forall|n: u32, id: u32| after.nodes.dom().contains(n) implies (
    #[trigger] after.incoming[n].contains(id) <==> after.edges.dom().contains(id)
        && after.edges[id].1 == n) by {
        if n != index {
            assert(graph.incoming[n].contains(id) <==> graph.edges.dom().contains(id)
                && graph.edges[id].1 == n);
        } else if graph.edges.dom().contains(id) {
            assert(graph.nodes.dom().contains(graph.edges[id].1));
        }
    }
}

proof fn lemma_front(list: Seq<u32>, id: u32, other: u32)
    ensures
        (seq![id] + list).contains(other) <==> other == id || list.contains(other),
        list.no_duplicates() && !list.contains(id) ==> (seq![id] + list).no_duplicates(),
{
    let whole = seq![id] + list;
    assert(whole[0] == id);
    if list.contains(other) {
        let k = list.index_of(other);
        assert(whole[k + 1] == other);
    }
    if whole.contains(other) && other != id {
        let k = whole.index_of(other);
        assert(list[k - 1] == other);
    }
    if list.no_duplicates() && !list.contains(id) {
        assert forall|i: int, j: int| 0 <= i < whole.len() && 0 <= j < whole.len() && i != j implies whole[i]
            != whole[j] by {
            if i == 0 {
                assert(whole[j] == list[j - 1]);
                assert(list.contains(list[j - 1]));
            } else if j == 0 {
                assert(whole[i] == list[i - 1]);
                assert(list.contains(list[i - 1]));
            } else {
                assert(whole[i] == list[i - 1] && whole[j] == list[j - 1]);
            }
        }
    }
}

/// Joining an edge keeps a graph well formed.
pub proof fn lemma_with_edge_wf(graph: GraphModel, id: u32, from: u32, to: u32, edge: Edge)
    requires
        graph.wf(),
        graph.nodes.dom().contains(from),
        graph.nodes.dom().contains(to),
        !graph.edges.dom().contains(id),
    ensures
        with_edge(graph, id, from, to, edge).wf(),
        with_edge(graph, id, from, to, edge).edges.dom().len() == graph.edges.dom().len() + 1,
{
    let after = with_edge(graph, id, from, to, edge);
    assert(after.outgoing.dom() =~= after.nodes.dom());
    assert(after.incoming.dom() =~= after.nodes.dom());
    assert(!graph.outgoing[from].contains(id));
    assert(!graph.incoming[to].contains(id));
    assert forall|other: u32| #[trigger] after.edges.dom().contains(other) implies after.nodes.dom().contains(
        after.edges[other].0,
    ) && after.nodes.dom().contains(after.edges[other].1) by {
        if other != id {
            assert(graph.edges.dom().contains(other));
        }
    }
    assert forall|n: u32| #[trigger] after.nodes.dom().contains(n) implies after.outgoing[n].no_duplicates()
        && after.incoming[n].no_duplicates() by {
        lemma_front(graph.outgoing[from], id, id);
        lemma_front(graph.incoming[to], id, id);
    }
    assert forall|n: u32, other: u32| after.nodes.dom().contains(n) implies (
    #[trigger] after.outgoing[n].contains(other) <==> after.edges.dom().contains(other)
        && after.edges[other].0 == n) by {
        assert(graph.outgoing[n].contains(other) <==> graph.edges.dom().contains(other)
            && graph.edges[other].0 == n);
        if n == from {
            lemma_front(graph.outgoing[from], id, other);
        }
    }
    assert forall|n: u32, other: u32| after.nodes.dom().contains(n) implies (
    #[trigger] after.incoming[n].contains(other) <==> after.edges.dom().contains(other)
        && after.edges[other].1 == n) by {
        assert(graph.incoming[n].contains(other) <==> graph.edges.dom().contains(other)
            && graph.edges[other].1 == n);
        if n == to {
            lemma_front(graph.incoming[to], id, other);
        }
    }
}

/// A graph once edges have joined it, one after another.
pub open spec fn with_edges(
    graph: GraphModel,
    ids: Seq<u32>,
    edges: Seq<(u32, u32, Edge)>,
) -> GraphModel
    decreases edges.len(),
{
    if edges.len() == 0 || ids.len() != edges.len() {
        graph
    } else {
        let (from, to, edge) = edges.last();
        with_edge(
            with_edges(graph, ids.drop_last(), edges.drop_last()),
            ids.last(),
            from,
            to,
            edge,
        )
    }
}

/// Whether an edge leads from one node to another.
pub open spec fn leads(graph: GraphModel, from: u32, to: u32) -> bool {
    exists|id: u32| #[trigger]
        graph.edges.dom().contains(id) && graph.edges[id].0 == from && graph.edges[id].1 == to
}

/// Whether numbers are new to a set and differ from each other.
pub open spec fn new_to(taken: Set<u32>, ids: Seq<u32>) -> bool {
    &&& ids.no_duplicates()
    &&& forall|k: int| 0 <= k < ids.len() ==> !taken.contains(#[trigger] ids[k])
}

/// Edges joining one after another keep a graph well formed and only add themselves.
pub proof fn lemma_with_edges(graph: GraphModel, ids: Seq<u32>, edges: Seq<(u32, u32, Edge)>)
    requires
        graph.wf(),
        ids.len() == edges.len(),
        new_to(graph.edges.dom(), ids),
        forall|k: int|
            0 <= k < edges.len() ==> graph.nodes.dom().contains((#[trigger] edges[k]).0)
                && graph.nodes.dom().contains(edges[k].1),
    ensures
        with_edges(graph, ids, edges).wf(),
        with_edges(graph, ids, edges).nodes == graph.nodes,
        with_edges(graph, ids, edges).edges.dom().len() == graph.edges.dom().len() + ids.len(),
        forall|id: u32| #[trigger]
            with_edges(graph, ids, edges).edges.dom().contains(id) <==> graph.edges.dom().contains(id)
                || ids.contains(id),
        forall|k: int|
            0 <= k < ids.len() ==> with_edges(graph, ids, edges).edges[#[trigger] ids[k]] == edges[k],
        forall|id: u32| #[trigger]
            graph.edges.dom().contains(id) ==> with_edges(graph, ids, edges).edges[id]
                == graph.edges[id],
    decreases edges.len(),
{
    if edges.len() > 0 {
        let head = ids.drop_last();
        let front = edges.drop_last();
        assert forall|k: int| 0 <= k < front.len() implies graph.nodes.dom().contains(
            (#[trigger] front[k]).0,
        ) && graph.nodes.dom().contains(front[k].1) by {
            assert(edges[k] == front[k]);
        }
        assert(new_to(graph.edges.dom(), head)) by {
            assert forall|k: int| 0 <= k < head.len() implies !graph.edges.dom().contains(
                #[trigger] head[k],
            ) by {
                assert(ids[k] == head[k]);
            }
        }
        lemma_with_edges(graph, head, front);
        let before = with_edges(graph, head, front);
        let id = ids.last();
        assert(ids[ids.len() - 1] == id);
        assert(!head.contains(id)) by {
            if head.contains(id) {
                let k = head.index_of(id);
                assert(ids[k] == ids[ids.len() - 1]);
            }
        }
        assert(graph.nodes.dom().contains(edges[edges.len() - 1].0));
        assert(graph.nodes.dom().contains(edges[edges.len() - 1].1));
        lemma_with_edge_wf(before, id, edges.last().0, edges.last().1, edges.last().2);
        let after = with_edges(graph, ids, edges);
        assert forall|other: u32| #[trigger] after.edges.dom().contains(other)
            <==> graph.edges.dom().contains(other) || ids.contains(other) by {
            if head.contains(other) {
                assert(ids[head.index_of(other)] == other);
            }
            if ids.contains(other) && other != id {
                let k = ids.index_of(other);
                assert(head[k] == other);
            }
        }
        assert forall|k: int| 0 <= k < ids.len() implies after.edges[#[trigger] ids[k]] == edges[k] by {
            if k < head.len() {
                assert(head[k] == ids[k]);
                assert(front[k] == edges[k]);
                assert(ids[k] != id);
            }
        }
    }
}

/// Filtering keeps exactly the items that pass, each as often as it was there.
pub proof fn lemma_filtered(list: Seq<u32>, keep: spec_fn(u32) -> bool, item: u32)
    ensures
        list.filter(keep).contains(item) <==> list.contains(item) && keep(item),
        list.no_duplicates() ==> list.filter(keep).no_duplicates(),
    decreases list.len(),
{
    reveal(Seq::filter);
    if list.len() > 0 {
        let front = list.drop_last();
        let last = list.last();
        lemma_filtered(front, keep, item);
        lemma_filtered(front, keep, last);
        let kept = front.filter(keep);
        if front.contains(item) {
            assert(list[front.index_of(item)] == item);
        }
        if list.contains(item) && item != last {
            let k = list.index_of(item);
            assert(front[k] == item);
        }
        assert(list[list.len() - 1] == last);
        if keep(last) {
            let after = kept.push(last);
            assert(after[kept.len() as int] == last);
            if kept.contains(item) {
                assert(after[kept.index_of(item)] == item);
            }
            if after.contains(item) && item != last {
                assert(kept[after.index_of(item)] == item);
            }
            if list.no_duplicates() {
                assert(!front.contains(last)) by {
                    if front.contains(last) {
                        assert(list[front.index_of(last)] == last);
                    }
                }
                assert(front.no_duplicates());
                assert forall|i: int, j: int| 0 <= i < after.len() && 0 <= j < after.len() && i != j
                    implies after[i] != after[j] by {
                    if i == kept.len() {
                        assert(kept.contains(kept[j]));
                    } else if j == kept.len() {
                        assert(kept.contains(kept[i]));
                    }
                }
            }
        } else if list.no_duplicates() {
            assert(front.no_duplicates());
        }
    }
}

/// Taking a node out keeps a graph well formed.
pub proof fn lemma_without_node_wf(graph: GraphModel, node: u32)
    requires
        graph.wf(),
        graph.nodes.dom().contains(node),
    ensures
        without_node(graph, node).wf(),
        without_node(graph, node).nodes.dom().len() == graph.nodes.dom().len() - 1,
        without_node(graph, node).edges.dom().len() <= graph.edges.dom().len(),
{
    let after = without_node(graph, node);
    let keep = graph::off(graph.edges, node);
    assert(after.outgoing.dom() =~= after.nodes.dom());
    assert(after.incoming.dom() =~= after.nodes.dom());
    assert(after.edges.dom().subset_of(graph.edges.dom()));
    vstd::set_lib::lemma_len_subset(after.edges.dom(), graph.edges.dom());
    assert forall|id: u32| #[trigger] after.edges.dom().contains(id) implies after.nodes.dom().contains(
        after.edges[id].0,
    ) && after.nodes.dom().contains(after.edges[id].1) by {
        assert(graph.edges.dom().contains(id));
    }
    assert forall|n: u32| #[trigger] after.nodes.dom().contains(n) implies after.outgoing[n].no_duplicates()
        && after.incoming[n].no_duplicates() by {
        assert(graph.nodes.dom().contains(n));
        lemma_filtered(graph.outgoing[n], keep, 0);
        lemma_filtered(graph.incoming[n], keep, 0);
        assert(after.outgoing[n] == graph.outgoing[n].filter(keep));
        assert(after.incoming[n] == graph.incoming[n].filter(keep));
    }
    assert forall|n: u32, id: u32| after.nodes.dom().contains(n) implies (
    #[trigger] after.outgoing[n].contains(id) <==> after.edges.dom().contains(id)
        && after.edges[id].0 == n) by {
        assert(after.outgoing[n] == graph.outgoing[n].filter(keep));
        lemma_filtered(graph.outgoing[n], keep, id);
        assert(graph.outgoing[n].contains(id) <==> graph.edges.dom().contains(id)
            && graph.edges[id].0 == n);
    }
    assert forall|n: u32, id: u32| after.nodes.dom().contains(n) implies (
    #[trigger] after.incoming[n].contains(id) <==> after.edges.dom().contains(id)
        && after.edges[id].1 == n) by {
        assert(after.incoming[n] == graph.incoming[n].filter(keep));
        lemma_filtered(graph.incoming[n], keep, id);
        assert(graph.incoming[n].contains(id) <==> graph.edges.dom().contains(id)
            && graph.edges[id].1 == n);
    }
}

impl VirtualFlowGraph {
    /// A graph with nothing in it.
    pub fn new() -> (graph: Self)
        ensures
            graph@.wf(),
            graph@.nodes.dom() == Set::<u32>::empty(),
            graph@.edges.dom() == Set::<u32>::empty(),
    {
        let graph = VirtualFlowGraph { graph: graph::new() };
        proof {
            assert(graph@.nodes.dom() =~= Set::<u32>::empty());
            assert(graph@.outgoing.dom() =~= graph@.nodes.dom());
            assert(graph@.incoming.dom() =~= graph@.nodes.dom());
        }
        graph
    }

    /// Put a node into the graph, and give it a number.
    pub fn add_node(&mut self, node: Node) -> (index: u32)
        requires
            old(self)@.wf(),
            old(self)@.nodes.dom().len() < u32::MAX,
        ensures
            !old(self)@.nodes.dom().contains(index),
            final(self)@ == with_node(old(self)@, index, node@),
            final(self)@.wf(),
            final(self)@.nodes.dom().len() == old(self)@.nodes.dom().len() + 1,
    {
        let ghost before = self@;
        let ghost said = node@;
        assert(before.nodes.dom() =~= graph_nodes(self.graph).dom());
        let index = graph::add_node(&mut self.graph, node);
        proof {
            assert(self@.nodes =~= before.nodes.insert(index, said));
            assert(self@ =~= with_node(before, index, said));
            lemma_with_node_wf(before, index, said);
        }
        index
    }

    /// Put an edge into the graph, and give it a number.
    pub fn add_edge(&mut self, from: u32, to: u32, edge: Edge) -> (id: u32)
        requires
            old(self)@.wf(),
            old(self)@.nodes.dom().contains(from),
            old(self)@.nodes.dom().contains(to),
            old(self)@.edges.dom().len() < u32::MAX,
        ensures
            !old(self)@.edges.dom().contains(id),
            final(self)@ == with_edge(old(self)@, id, from, to, edge),
            final(self)@.wf(),
            final(self)@.edges.dom().len() == old(self)@.edges.dom().len() + 1,
    {
        let ghost before = self@;
        assert(before.nodes.dom() =~= graph_nodes(self.graph).dom());
        let id = graph::add_edge(&mut self.graph, from, to, edge);
        proof {
            assert(self@ =~= with_edge(before, id, from, to, edge));
            lemma_with_edge_wf(before, id, from, to, edge);
        }
        id
    }

    /// Take a node out of the graph, with the edges at it.
    pub fn remove_node(&mut self, node: u32)
        requires
            old(self)@.wf(),
            old(self)@.nodes.dom().contains(node),
        ensures
            final(self)@ == without_node(old(self)@, node),
            final(self)@.wf(),
    {
        let ghost before = self@;
        graph::remove_node(&mut self.graph, node);
        proof {
            assert(self@.nodes =~= before.nodes.remove(node));
            assert(self@ =~= without_node(before, node));
            lemma_without_node_wf(before, node);
        }
    }

    /// The node going by a number.
    pub fn node(&self, index: u32) -> (node: &Node)
        requires
            self@.nodes.dom().contains(index),
        ensures
            node@ == self@.nodes[index],
    {
        graph::node(&self.graph, index)
    }

    /// The numbers of the nodes, in ascending order.
    pub fn node_indices(&self) -> (indices: Vec<u32>)
        ensures
            graph::ascending(indices@),
            indices@.to_set() == self@.nodes.dom(),
    {
        let indices = graph::node_indices(&self.graph);
        assert(self@.nodes.dom() =~= graph_nodes(self.graph).dom());
        indices
    }

    /// How many nodes the graph has.
    pub fn num_nodes(&self) -> (count: usize)
        ensures
            count == self@.nodes.dom().len(),
    {
        assert(self@.nodes.dom() =~= graph_nodes(self.graph).dom());
        graph::node_count(&self.graph)
    }

    /// How many edges the graph has.
    pub fn num_edges(&self) -> (count: usize)
        ensures
            count == self@.edges.dom().len(),
    {
        graph::edge_count(&self.graph)
    }
}

impl Default for VirtualFlowGraph {
    fn default() -> (graph: Self)
        ensures
            graph@.wf(),
            graph@.nodes.dom() == Set::<u32>::empty(),
            graph@.edges.dom() == Set::<u32>::empty(),
    {
        Self::new()
    }
}

} // verus!
