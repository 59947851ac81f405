//! The spine: scanning a flat reading for a collector, and wiring the way to it.

use rustworkx_core::petgraph::stable_graph::NodeIndex;
use rustworkx_core::petgraph::Direction as PetDirection;
use samplex::annotated_circuit::DistributionType;
use samplex::annotated_circuit::SynthesizerType;
use samplex::distributions::DistEntry;
use samplex::distributions::DistKey;
use samplex::distributions::DistributionTable;
use samplex::emission_circuit::Emit;
use samplex::emission_circuit::EmitPart;
use samplex::emission_circuit_navigation::Site;
use samplex::error::SamplexError;
use samplex::partition::Partition;
use samplex::spine::Spine;
use samplex::standard_gate::StandardGate;
use samplex::track::Collector;
use samplex::track::GateNodes;
use samplex::track::Item;
use samplex::virtual_flow_graph::AbsorbedGate;
use samplex::virtual_flow_graph::AbsorbedParam;
use samplex::virtual_flow_graph::Collect;
use samplex::virtual_flow_graph::CollectStep;
use samplex::virtual_flow_graph::Direction;
use samplex::virtual_flow_graph::Emission;
use samplex::virtual_flow_graph::Node;
use samplex::virtual_flow_graph::NodeKind;
use samplex::virtual_flow_graph::SamplingGraph;
use samplex::virtual_type::VirtualType;

/// The same emission, written out again.
fn emit_again(emission: &Emit) -> Emit {
    Emit {
        direction: emission.direction,
        partition: Partition::singletons(emission.parts.len()),
        parts: emission.parts.clone(),
    }
}

/// A table holding one distribution, with the key to reach it.
fn table_with(distribution: DistributionType) -> (DistributionTable, DistKey) {
    let mut table = DistributionTable::new();
    let key = table.intern(DistEntry::Distribution(distribution));
    (table, key)
}

/// An emission travelling `direction` over `width` wires, one part per wire.
fn emit(direction: Direction, width: usize, key: DistKey) -> Emit {
    Emit {
        direction: Some(direction),
        partition: Partition::singletons(width),
        parts: (0..width)
            .map(|draw| EmitPart {
                dist: key,
                draw: draw as u32,
                adjoint: false,
            })
            .collect(),
    }
}

/// A collector over `qubits` whose absorbed run is `steps`.
///
/// The site is a placeholder: these tests exercise propagation, which never reads it. What does
/// read it is the join in `lower`, tested there.
fn collector(qubits: &[usize], steps: Vec<CollectStep>) -> Collector {
    Collector {
        site: Site {
            scope: Vec::new(),
            node: 0,
        },
        qubits: qubits.to_vec(),
        partition: Partition::singletons(qubits.len()),
        synthesizer: SynthesizerType::RzSx,
        param_indices: Vec::new(),
        steps,
    }
}

/// One absorbed gate on one wire, as a collector step.
fn absorbed(gate: StandardGate, qubit: usize) -> CollectStep {
    CollectStep::Gate(AbsorbedGate {
        gate,
        qubits: vec![qubit],
        params: Vec::<AbsorbedParam>::new(),
    })
}

/// Wire the emission standing at `from` towards collector `target`, returning the graph it built along with the
/// two nodes the walk runs between.
fn wire(
    spine: &Spine,
    from: usize,
    emission: &Emit,
    qubits: &[usize],
    target: usize,
    table: &DistributionTable,
) -> Result<(SamplingGraph, u32, u32), SamplexError> {
    let mut sg = SamplingGraph::new();
    let source = sg.add_node(Node::singletons(
        qubits.to_vec(),
        NodeKind::Emission(Emission {
            key: emission.dist(),
            entry: DistEntry::Distribution(DistributionType::UniformPauli),
            direction: emission.direction.unwrap(),
            virtual_type: emission.virtual_type(table),
        }),
    ));
    let target_node = sg.add_node(Node::singletons(
        spine.collectors[target].qubits.clone(),
        NodeKind::Collect(Collect {
            synthesizer: SynthesizerType::RzSx,
            param_indices: Vec::new(),
            steps: Vec::new(),
        }),
    ));
    let mut gate_nodes = GateNodes::new();
    spine.propagate(
        &mut sg,
        from,
        emission,
        &qubits.to_vec(),
        source,
        target,
        target_node,
        &mut gate_nodes,
        table,
    )?;
    Ok((sg, source, target_node))
}

/// Every conjugation node the walk created, as `(gate, qubits)`.
fn conjugations(sg: &SamplingGraph) -> Vec<(StandardGate, Vec<usize>)> {
    sg.graph
        .node_weights()
        .filter_map(|node| match &node.kind {
            NodeKind::Propagate(p) => Some((p.gate, node.qubits.clone())),
            _ => None,
        })
        .collect()
}

fn predecessors(sg: &SamplingGraph, node: u32) -> Vec<u32> {
    sg.graph
        .neighbors_directed(NodeIndex::new(node as usize), PetDirection::Incoming)
        .map(|found| found.index() as u32)
        .collect()
}

// --- Propagation target resolution -----------------------------------------------------------

#[test]
fn spine_test_an_emission_resolves_to_the_nearest_collector_ahead() {
    let (table, key) = table_with(DistributionType::UniformPauli);
    let emission = emit(Direction::Right, 1, key);
    let spine = Spine::new(
        vec![
            Item::Emission(emit_again(&emission), vec![0]),
            Item::Gate(StandardGate::H, vec![0]),
            Item::Collector(0),
            Item::Collector(1),
        ],
        vec![collector(&[0], vec![]), collector(&[0], vec![])],
    );
    assert_eq!(
        spine.resolve_collector(0, Direction::Right, &emission, &[0], &table),
        Some(0)
    );
}

#[test]
fn spine_test_resolution_scans_the_way_the_emission_travels() {
    let (table, key) = table_with(DistributionType::UniformPauli);
    let spine = Spine::new(
        vec![Item::Collector(0), Item::Opaque, Item::Collector(1)],
        vec![collector(&[0], vec![]), collector(&[0], vec![])],
    );
    // The same position, read both ways: a twirl's two halves are exactly this pair.
    let far = emit(Direction::Right, 1, key);
    let near = emit(Direction::Left, 1, key);
    assert_eq!(
        spine.resolve_collector(1, Direction::Right, &far, &[0], &table),
        Some(1)
    );
    assert_eq!(
        spine.resolve_collector(1, Direction::Left, &near, &[0], &table),
        Some(0)
    );
}

#[test]
fn spine_test_a_collector_that_does_not_cover_the_emission_is_crossed() {
    let (table, key) = table_with(DistributionType::UniformPauli);
    let emission = emit(Direction::Right, 2, key);
    let spine = Spine::new(
        vec![
            Item::Emission(emit_again(&emission), vec![0, 1]),
            Item::Collector(0),
            Item::Collector(1),
        ],
        // The nearer collector covers only one of the emission's two wires, so it could not
        // synthesize the whole of what was emitted and the emission travels past it.
        vec![collector(&[0], vec![]), collector(&[0, 1], vec![])],
    );
    assert!(!spine.collectors[0].accepts(&emission, &[0, 1], &table));
    assert!(spine.collectors[1].accepts(&emission, &[0, 1], &table));
    assert_eq!(
        spine.resolve_collector(0, Direction::Right, &emission, &[0, 1], &table),
        Some(1)
    );
}

#[test]
fn spine_test_an_emission_with_nothing_to_collect_it_does_not_resolve() {
    let (table, key) = table_with(DistributionType::UniformPauli);
    let emission = emit(Direction::Right, 1, key);
    let spine = Spine::new(
        vec![
            Item::Emission(emit_again(&emission), vec![0]),
            Item::Gate(StandardGate::H, vec![0]),
        ],
        vec![],
    );
    // The caller turns this into the "randomization could not be undone" error.
    assert_eq!(
        spine.resolve_collector(0, Direction::Right, &emission, &[0], &table),
        None
    );
}

// --- Per-wire conjugation chaining -----------------------------------------------------------

#[test]
fn spine_test_each_wire_chains_through_its_own_gates() {
    let (table, key) = table_with(DistributionType::UniformPauli);
    let emission = emit(Direction::Right, 2, key);
    let spine = Spine::new(
        vec![
            Item::Emission(emit_again(&emission), vec![0, 1]),
            Item::Gate(StandardGate::H, vec![0]),
            Item::Gate(StandardGate::S, vec![1]),
            Item::Collector(0),
        ],
        vec![collector(&[0, 1], vec![])],
    );
    let (sg, _source, target) = wire(&spine, 0, &emission, &[0, 1], 0, &table).unwrap();

    // One conjugation per gate, each on its own wire: the two wires never met, so nothing joins.
    let mut found = conjugations(&sg);
    found.sort_by_key(|(gate, _)| gate.name().to_string());
    assert_eq!(
        found,
        vec![(StandardGate::H, vec![0]), (StandardGate::S, vec![1]),]
    );
    // Both wires' frontiers end at the collector, so it has two distinct predecessors.
    assert_eq!(predecessors(&sg, target).len(), 2);
}

#[test]
fn spine_test_a_gate_spanning_both_wires_joins_their_chains() {
    let (table, key) = table_with(DistributionType::UniformPauli);
    let emission = emit(Direction::Right, 2, key);
    let spine = Spine::new(
        vec![
            Item::Emission(emit_again(&emission), vec![0, 1]),
            Item::Gate(StandardGate::CX, vec![0, 1]),
            Item::Collector(0),
        ],
        vec![collector(&[0, 1], vec![])],
    );
    let (sg, source, target) = wire(&spine, 0, &emission, &[0, 1], 0, &table).unwrap();

    // A conjugation by a two-qubit gate mixes its wires, so it is one joint node rather than two.
    assert_eq!(conjugations(&sg), vec![(StandardGate::CX, vec![0, 1])]);
    let joint = predecessors(&sg, target);
    assert_eq!(
        joint.len(),
        1,
        "both wires should have merged onto one node"
    );
    assert!(sg.node(joint[0]).partition.len() == 1);
    assert_eq!(predecessors(&sg, joint[0]), vec![source]);
}

#[test]
fn spine_test_a_gate_off_the_emissions_wires_is_not_chained() {
    let (table, key) = table_with(DistributionType::UniformPauli);
    let emission = emit(Direction::Right, 1, key);
    let spine = Spine::new(
        vec![
            Item::Emission(emit_again(&emission), vec![0]),
            Item::Gate(StandardGate::H, vec![1]),
            Item::Collector(0),
        ],
        vec![collector(&[0], vec![])],
    );
    let (sg, source, target) = wire(&spine, 0, &emission, &[0], 0, &table).unwrap();

    assert!(conjugations(&sg).is_empty());
    // Nothing stood between them, so the emission feeds its collector directly.
    assert_eq!(predecessors(&sg, target), vec![source]);
}

#[test]
fn spine_test_a_crossed_collectors_absorbed_gates_still_conjugate() {
    let (table, key) = table_with(DistributionType::UniformPauli);
    let emission = emit(Direction::Right, 2, key);
    let spine = Spine::new(
        vec![
            Item::Emission(emit_again(&emission), vec![0, 1]),
            Item::Collector(0),
            Item::Collector(1),
        ],
        vec![
            // Declines the emission, but its absorbed gate is a real gate on the path.
            collector(&[0], vec![absorbed(StandardGate::H, 0)]),
            collector(&[0, 1], vec![]),
        ],
    );
    let target = spine
        .resolve_collector(0, Direction::Right, &emission, &[0, 1], &table)
        .unwrap();
    assert_eq!(target, 1);
    let (sg, _source, target_node) =
        wire(&spine, 0, &emission, &[0, 1], target, &table).unwrap();

    assert_eq!(conjugations(&sg), vec![(StandardGate::H, vec![0])]);
    // Wire 0 ends on the conjugation, wire 1 still on the emission itself.
    assert_eq!(predecessors(&sg, target_node).len(), 2);
}

// --- The `propagates` refusal ----------------------------------------------------------------

#[test]
fn spine_test_propagation_refuses_a_gate_with_no_rule() {
    // A local U2 element admits single-qubit gates only, so a CX on its wire has no rule.
    let (table, key) = table_with(DistributionType::HaarU2);
    let emission = emit(Direction::Right, 1, key);
    let spine = Spine::new(
        vec![
            Item::Emission(emit_again(&emission), vec![0]),
            Item::Gate(StandardGate::CX, vec![0, 1]),
            Item::Collector(0),
        ],
        vec![collector(&[0], vec![])],
    );
    // Resolution still succeeds — it is the walk that discovers there is no rule.
    assert_eq!(
        spine.resolve_collector(0, Direction::Right, &emission, &[0], &table),
        Some(0)
    );
    assert!(matches!(
        wire(&spine, 0, &emission, &[0], 0, &table),
        Err(SamplexError::NoPropagationRule {
            virtual_type: VirtualType::U2,
            gate: StandardGate::CX,
        })
    ));
}

#[test]
fn spine_test_a_pauli_survives_the_same_gate_a_u2_element_does_not() {
    // The refusal is a property of the virtual type, not of the spine's shape: the same spine
    // with a Pauli emission wires cleanly.
    let (table, key) = table_with(DistributionType::UniformPauli);
    let emission = emit(Direction::Right, 1, key);
    let spine = Spine::new(
        vec![
            Item::Emission(emit_again(&emission), vec![0]),
            Item::Gate(StandardGate::CX, vec![0, 1]),
            Item::Collector(0),
        ],
        vec![collector(&[0], vec![])],
    );
    let (sg, _source, _target) = wire(&spine, 0, &emission, &[0], 0, &table).unwrap();
    assert_eq!(conjugations(&sg), vec![(StandardGate::CX, vec![0, 1])]);
}
