//! The flat track, the wiring of it, and the joining of a template's parameters.

use rustworkx_core::petgraph::stable_graph::NodeIndex;
use rustworkx_core::petgraph::Direction as PetDirection;
use samplex::annotated_circuit::DistributionType;
use samplex::annotated_circuit::SynthesizerType;
use samplex::distributions::DistEntry;
use samplex::distributions::DistKey;
use samplex::distributions::DistributionTable;
use samplex::emission_circuit::Emit;
use samplex::emission_circuit::EmitPart;
use samplex::emission_circuit_navigation::Site;
use samplex::error::SamplexError;
use samplex::partition::Partition;
use samplex::standard_gate::StandardGate;
use samplex::track::Collector;
use samplex::track::CollectorParams;
use samplex::track::Item;
use samplex::track::SamplingGraphBuilder;
use samplex::track::Track;
use samplex::virtual_flow_graph::AbsorbedGate;
use samplex::virtual_flow_graph::AbsorbedParam;
use samplex::virtual_flow_graph::CollectStep;
use samplex::virtual_flow_graph::Direction;
use samplex::virtual_flow_graph::NodeKind;
use samplex::virtual_flow_graph::SamplingGraph;
use samplex::virtual_type::VirtualType;

/// The same emission, written out again.
fn emit_again(emission: &Emit) -> Emit {
    Emit {
        direction: emission.direction,
        partition: Partition::singletons(emission.parts.len()),
        parts: emission.parts.clone(),
    }
}

/// A table holding one distribution, with the key to reach it.
fn table_with(distribution: DistributionType) -> (DistributionTable, DistKey) {
    let mut table = DistributionTable::new();
    let key = table.intern(DistEntry::Distribution(distribution));
    (table, key)
}

/// An emission travelling `direction` over `width` wires, one part per wire.
fn emit(direction: Direction, width: usize, key: DistKey) -> Emit {
    Emit {
        direction: Some(direction),
        partition: Partition::singletons(width),
        parts: (0..width)
            .map(|draw| EmitPart {
                dist: key,
                draw: draw as u32,
                adjoint: false,
            })
            .collect(),
    }
}

/// A collector over `qubits` whose absorbed run is `steps`.
///
/// The site is a placeholder: these tests exercise propagation, which never reads it. What does
/// read it is the join in `lower`, tested there.
fn collector(qubits: &[usize], steps: Vec<CollectStep>) -> Collector {
    Collector {
        site: Site {
            scope: Vec::new(),
            node: 0,
        },
        qubits: qubits.to_vec(),
        partition: Partition::singletons(qubits.len()),
        synthesizer: SynthesizerType::RzSx,
        param_indices: Vec::new(),
        steps,
    }
}

/// One absorbed gate on one wire, as a collector step.
fn absorbed(gate: StandardGate, qubit: usize) -> CollectStep {
    CollectStep::Gate(AbsorbedGate {
        gate,
        qubits: vec![qubit],
        params: Vec::<AbsorbedParam>::new(),
    })
}

/// Wire the emission standing at `from` towards collector `target`, returning the builder along with the two
/// nodes the walk runs between.
///
/// This drives the builder a step at a time, because `build` consumes it and so cannot hand back the two nodes the
/// assertions are about. Everything the walk reads is still created the way `build` creates it.
fn wire(
    track: Track,
    from: usize,
    target: usize,
    table: &DistributionTable,
) -> Result<(SamplingGraphBuilder<'_>, u32, u32), SamplexError> {
    let mut builder = SamplingGraphBuilder::new(track, table);
    builder.add_item_nodes()?;
    let source = builder.emission_node(from).unwrap();
    let target_node = builder.collector_node(target).unwrap();
    builder.propagate(from, target)?;
    Ok((builder, source, target_node))
}

/// Every conjugation node the walk created, as `(gate, qubits)`.
fn conjugations(sg: &SamplingGraph) -> Vec<(StandardGate, Vec<usize>)> {
    sg.graph
        .node_weights()
        .filter_map(|node| match &node.kind {
            NodeKind::Propagate(p) => Some((p.gate, node.qubits.clone())),
            _ => None,
        })
        .collect()
}

fn predecessors(sg: &SamplingGraph, node: u32) -> Vec<u32> {
    sg.graph
        .neighbors_directed(NodeIndex::new(node as usize), PetDirection::Incoming)
        .map(|found| found.index() as u32)
        .collect()
}

// --- Propagation target resolution -----------------------------------------------------------

#[test]
fn track_test_an_emission_resolves_to_the_nearest_collector_ahead() {
    let (table, key) = table_with(DistributionType::UniformPauli);
    let emission = emit(Direction::Right, 1, key);
    let track = Track::new(
        vec![
            Item::Emission(emit_again(&emission), vec![0]),
            Item::Gate(StandardGate::H, vec![0]),
            Item::Collector(0),
            Item::Collector(1),
        ],
        vec![collector(&[0], vec![]), collector(&[0], vec![])],
    );
    assert_eq!(
        track.resolve_collector(0, Direction::Right, &emission, &[0], &table),
        Some(0)
    );
}

#[test]
fn track_test_resolution_scans_the_way_the_emission_travels() {
    let (table, key) = table_with(DistributionType::UniformPauli);
    let track = Track::new(
        vec![Item::Collector(0), Item::Opaque, Item::Collector(1)],
        vec![collector(&[0], vec![]), collector(&[0], vec![])],
    );
    // The same position, read both ways: a twirl's two halves are exactly this pair.
    let far = emit(Direction::Right, 1, key);
    let near = emit(Direction::Left, 1, key);
    assert_eq!(
        track.resolve_collector(1, Direction::Right, &far, &[0], &table),
        Some(1)
    );
    assert_eq!(
        track.resolve_collector(1, Direction::Left, &near, &[0], &table),
        Some(0)
    );
}

#[test]
fn track_test_a_collector_that_does_not_cover_the_emission_is_crossed() {
    let (table, key) = table_with(DistributionType::UniformPauli);
    let emission = emit(Direction::Right, 2, key);
    let track = Track::new(
        vec![
            Item::Emission(emit_again(&emission), vec![0, 1]),
            Item::Collector(0),
            Item::Collector(1),
        ],
        // The nearer collector covers only one of the emission's two wires, so it could not
        // synthesize the whole of what was emitted and the emission travels past it.
        vec![collector(&[0], vec![]), collector(&[0, 1], vec![])],
    );
    assert!(!track.collectors()[0].accepts(&emission, &[0, 1], &table));
    assert!(track.collectors()[1].accepts(&emission, &[0, 1], &table));
    assert_eq!(
        track.resolve_collector(0, Direction::Right, &emission, &[0, 1], &table),
        Some(1)
    );
}

#[test]
fn track_test_an_emission_with_nothing_to_collect_it_does_not_resolve() {
    let (table, key) = table_with(DistributionType::UniformPauli);
    let emission = emit(Direction::Right, 1, key);
    let track = Track::new(
        vec![
            Item::Emission(emit_again(&emission), vec![0]),
            Item::Gate(StandardGate::H, vec![0]),
        ],
        vec![],
    );
    // The caller turns this into the "randomization could not be undone" error.
    assert_eq!(
        track.resolve_collector(0, Direction::Right, &emission, &[0], &table),
        None
    );
}

// --- Per-wire conjugation chaining -----------------------------------------------------------

#[test]
fn track_test_each_wire_chains_through_its_own_gates() {
    let (table, key) = table_with(DistributionType::UniformPauli);
    let emission = emit(Direction::Right, 2, key);
    let track = Track::new(
        vec![
            Item::Emission(emit_again(&emission), vec![0, 1]),
            Item::Gate(StandardGate::H, vec![0]),
            Item::Gate(StandardGate::S, vec![1]),
            Item::Collector(0),
        ],
        vec![collector(&[0, 1], vec![])],
    );
    let (builder, _source, target) = wire(track, 0, 0, &table).unwrap();
    let sg = builder.graph();

    // One conjugation per gate, each on its own wire: the two wires never met, so nothing joins.
    let mut found = conjugations(sg);
    found.sort_by_key(|(gate, _)| gate.name().to_string());
    assert_eq!(
        found,
        vec![(StandardGate::H, vec![0]), (StandardGate::S, vec![1]),]
    );
    // Both wires' frontiers end at the collector, so it has two distinct predecessors.
    assert_eq!(predecessors(sg, target).len(), 2);
}

#[test]
fn track_test_a_gate_spanning_both_wires_joins_their_chains() {
    let (table, key) = table_with(DistributionType::UniformPauli);
    let emission = emit(Direction::Right, 2, key);
    let track = Track::new(
        vec![
            Item::Emission(emit_again(&emission), vec![0, 1]),
            Item::Gate(StandardGate::CX, vec![0, 1]),
            Item::Collector(0),
        ],
        vec![collector(&[0, 1], vec![])],
    );
    let (builder, source, target) = wire(track, 0, 0, &table).unwrap();
    let sg = builder.graph();

    // A conjugation by a two-qubit gate mixes its wires, so it is one joint node rather than two.
    assert_eq!(conjugations(sg), vec![(StandardGate::CX, vec![0, 1])]);
    let joint = predecessors(sg, target);
    assert_eq!(
        joint.len(),
        1,
        "both wires should have merged onto one node"
    );
    assert!(sg.node(joint[0]).partition.len() == 1);
    assert_eq!(predecessors(sg, joint[0]), vec![source]);
}

#[test]
fn track_test_a_gate_off_the_emissions_wires_is_not_chained() {
    let (table, key) = table_with(DistributionType::UniformPauli);
    let emission = emit(Direction::Right, 1, key);
    let track = Track::new(
        vec![
            Item::Emission(emit_again(&emission), vec![0]),
            Item::Gate(StandardGate::H, vec![1]),
            Item::Collector(0),
        ],
        vec![collector(&[0], vec![])],
    );
    let (builder, source, target) = wire(track, 0, 0, &table).unwrap();
    let sg = builder.graph();

    assert!(conjugations(sg).is_empty());
    // Nothing stood between them, so the emission feeds its collector directly.
    assert_eq!(predecessors(sg, target), vec![source]);
}

#[test]
fn track_test_a_crossed_collectors_absorbed_gates_still_conjugate() {
    let (table, key) = table_with(DistributionType::UniformPauli);
    let emission = emit(Direction::Right, 2, key);
    let track = Track::new(
        vec![
            Item::Emission(emit_again(&emission), vec![0, 1]),
            Item::Collector(0),
            Item::Collector(1),
        ],
        vec![
            // Declines the emission, but its absorbed gate is a real gate on the path.
            collector(&[0], vec![absorbed(StandardGate::H, 0)]),
            collector(&[0, 1], vec![]),
        ],
    );
    let target = track
        .resolve_collector(0, Direction::Right, &emission, &[0, 1], &table)
        .unwrap();
    assert_eq!(target, 1);
    let (builder, _source, target_node) = wire(track, 0, target, &table).unwrap();
    let sg = builder.graph();

    assert_eq!(conjugations(sg), vec![(StandardGate::H, vec![0])]);
    // Wire 0 ends on the conjugation, wire 1 still on the emission itself.
    assert_eq!(predecessors(sg, target_node).len(), 2);
}

// --- The `propagates` refusal ----------------------------------------------------------------

#[test]
fn track_test_propagation_refuses_a_gate_with_no_rule() {
    // A local U2 element admits single-qubit gates only, so a CX on its wire has no rule.
    let (table, key) = table_with(DistributionType::HaarU2);
    let emission = emit(Direction::Right, 1, key);
    let track = Track::new(
        vec![
            Item::Emission(emit_again(&emission), vec![0]),
            Item::Gate(StandardGate::CX, vec![0, 1]),
            Item::Collector(0),
        ],
        vec![collector(&[0], vec![])],
    );
    // Resolution still succeeds — it is the walk that discovers there is no rule.
    assert_eq!(
        track.resolve_collector(0, Direction::Right, &emission, &[0], &table),
        Some(0)
    );
    assert!(matches!(
        wire(track, 0, 0, &table),
        Err(SamplexError::NoPropagationRule {
            virtual_type: VirtualType::U2,
            gate: StandardGate::CX,
        })
    ));
}

#[test]
fn track_test_a_pauli_survives_the_same_gate_a_u2_element_does_not() {
    // The refusal is a property of the virtual type, not of the track's shape: the same track
    // with a Pauli emission wires cleanly.
    let (table, key) = table_with(DistributionType::UniformPauli);
    let emission = emit(Direction::Right, 1, key);
    let track = Track::new(
        vec![
            Item::Emission(emit_again(&emission), vec![0]),
            Item::Gate(StandardGate::CX, vec![0, 1]),
            Item::Collector(0),
        ],
        vec![collector(&[0], vec![])],
    );
    let (builder, _source, _target) = wire(track, 0, 0, &table).unwrap();
    let sg = builder.graph();
    assert_eq!(conjugations(sg), vec![(StandardGate::CX, vec![0, 1])]);
}

// --- The `Site` join, on the two sides built by hand -----------------------------------------
//
//
// A `Site` is a path of node numbers and both sides of the join are plain data, so what the join does with them
// can be pinned directly.

/// A site at `node`, reached through the boxes `scope` names.
fn site(scope: &[usize], node: usize) -> Site {
    Site {
        scope: scope.to_vec(),
        node: node,
    }
}

/// One collector as the graph walk reports it, with no range attached yet.
fn graph_collector(site: Site) -> Collector {
    Collector {
        site,
        qubits: vec![0],
        partition: Partition::singletons(1),
        synthesizer: SynthesizerType::RzSx,
        param_indices: Vec::new(),
        steps: Vec::new(),
    }
}

/// One collector as the template reports it, carrying the range it minted.
fn template_params(site: Site, param_indices: Vec<usize>) -> CollectorParams {
    CollectorParams {
        site,
        qubits: vec![0],
        synthesizer: SynthesizerType::RzSx,
        param_indices,
    }
}

/// A track of nothing but collectors, pushed so their positions stay in step.
fn track_of(collectors: Vec<Collector>) -> Track {
    let mut track = Track::default();
    for collector in collectors {
        track.push_collector(collector);
    }
    track
}

#[test]
fn test_a_collector_keeps_its_own_range_when_the_walks_disagree_on_order() {
    // This is the divergence a count comparison cannot see: the same number of collectors on both
    // sides, in opposite orders. Positionally the second collector would take the first one's
    // angles, mis-randomizing a circuit that still executes. Keyed on the site there is nothing to
    // get wrong — the reorder is resolved rather than carried through.
    let template = vec![
        template_params(site(&[], 1), vec![0, 1, 2]),
        template_params(site(&[], 7), vec![3, 4, 5]),
    ];
    let mut track = track_of(vec![
        graph_collector(site(&[], 7)),
        graph_collector(site(&[], 1)),
    ]);
    track.attach_param_indices(&template).unwrap();
    assert_eq!(track.collectors()[0].param_indices, vec![3, 4, 5]);
    assert_eq!(track.collectors()[1].param_indices, vec![0, 1, 2]);
}

#[test]
fn test_the_same_node_index_in_two_scopes_is_two_collectors() {
    // Node indices are per-scope, so identity is the whole path and not its last step. A join keyed
    // on the node alone would fuse a nested collector with a top-level one.
    let template = vec![
        template_params(site(&[], 3), vec![0, 1, 2]),
        template_params(site(&[4], 3), vec![3, 4, 5]),
    ];
    let mut track = track_of(vec![
        graph_collector(site(&[4], 3)),
        graph_collector(site(&[], 3)),
    ]);
    track.attach_param_indices(&template).unwrap();
    assert_eq!(track.collectors()[0].param_indices, vec![3, 4, 5]);
    assert_eq!(track.collectors()[1].param_indices, vec![0, 1, 2]);
}

#[test]
fn test_a_collector_only_the_graph_walk_found_is_refused() {
    // Nothing minted its angles, so there is no honest range to give it. Reported, never skipped: a
    // collector left with an empty range would synthesize from parameters the template does not
    // have.
    let template = vec![template_params(site(&[], 1), vec![0, 1, 2])];
    let mut track = track_of(vec![
        graph_collector(site(&[], 1)),
        graph_collector(site(&[], 9)),
    ]);
    assert!(matches!(
        track.attach_param_indices(&template),
        Err(SamplexError::CollectorNotInTemplate(missing)) if missing == site(&[], 9)
    ));
}

#[test]
fn test_a_collector_only_the_template_found_is_refused() {
    // The other direction: angles standing in the template with nothing in the graph computing
    // them.
    let template = vec![
        template_params(site(&[], 1), vec![0, 1, 2]),
        template_params(site(&[], 9), vec![3, 4, 5]),
    ];
    let mut track = track_of(vec![graph_collector(site(&[], 1))]);
    assert!(matches!(
        track.attach_param_indices(&template),
        Err(SamplexError::CollectorsNotInGraph { count: 1, site: missing })
            if missing == site(&[], 9)
    ));
}

#[test]
fn test_two_ranges_for_one_site_is_refused() {
    // A site names one collect box, so the join would have no defined answer here.
    let template = vec![
        template_params(site(&[], 1), vec![0, 1, 2]),
        template_params(site(&[], 1), vec![3, 4, 5]),
    ];
    let mut track = track_of(vec![graph_collector(site(&[], 1))]);
    assert!(matches!(
        track.attach_param_indices(&template),
        Err(SamplexError::DuplicateCollectorParams(duplicated)) if duplicated == site(&[], 1)
    ));
}
