//! The sampling graph, its readouts, and the passes over it.

use rustworkx_core::petgraph::stable_graph::NodeIndex;
use rustworkx_core::petgraph::Direction as PetDirection;
use samplex::annotated_circuit::ChangeBasisMode;
use samplex::annotated_circuit::DistributionType;
use samplex::annotated_circuit::SynthesizerType;
use samplex::distributions::DistEntry;
use samplex::distributions::DistKey;
use samplex::emission_circuit::EmitPart;
use samplex::partition::Partition;
use samplex::passes::merge_parallel_nodes;
use samplex::passes::prune_unreachable_from_sinks;
use samplex::passes::prune_unreachable_from_sources;
use samplex::passes::set_virtual_types;
use samplex::readout::emission_label;
use samplex::standard_gate::StandardGate;
use samplex::virtual_flow_graph::AbsorbedGate;
use samplex::virtual_flow_graph::Collect;
use samplex::virtual_flow_graph::CollectStep;
use samplex::virtual_flow_graph::Direction;
use samplex::virtual_flow_graph::Edge;
use samplex::virtual_flow_graph::Emission;
use samplex::virtual_flow_graph::LocalEmission;
use samplex::virtual_flow_graph::Measure;
use samplex::virtual_flow_graph::Node;
use samplex::virtual_flow_graph::NodeKind;
use samplex::virtual_flow_graph::Propagate;
use samplex::virtual_flow_graph::VirtualFlowGraph;
use samplex::virtual_type::VirtualType;

fn emission(entry: DistEntry, direction: Direction) -> Emission {
    Emission {
        key: DistKey(0),
        entry,
        direction,
        virtual_type: VirtualType::Pauli,
    }
}

fn uniform_pauli() -> DistEntry {
    DistEntry::Distribution(DistributionType::UniformPauli)
}

fn emit_node(qubits: &[usize]) -> Node {
    emission_node(qubits, DistKey(0))
}

fn emission_node(qubits: &[usize], key: DistKey) -> Node {
    Node::singletons(
        qubits.to_vec(),
        NodeKind::Emission(Emission {
            key,
            entry: uniform_pauli(),
            direction: Direction::Right,
            virtual_type: VirtualType::Pauli,
        }),
    )
}

fn typed_emit_node(qubits: &[usize], distribution: DistributionType) -> Node {
    Node::singletons(
        qubits.to_vec(),
        NodeKind::Emission(Emission {
            key: DistKey(0),
            entry: DistEntry::Distribution(distribution),
            direction: Direction::Right,
            virtual_type: distribution.virtual_type(),
        }),
    )
}

fn propagate_node(qubits: &[usize]) -> Node {
    propagate_node_with(qubits, StandardGate::CX, Direction::Right)
}

fn propagate_node_with_gate(qubits: &[usize], gate: StandardGate) -> Node {
    propagate_node_with(qubits, gate, Direction::Right)
}

fn propagate_node_with(qubits: &[usize], gate: StandardGate, direction: Direction) -> Node {
    Node::joint(
        qubits.to_vec(),
        NodeKind::Propagate(Propagate { gate, direction }),
    )
}

fn collect_node(qubits: &[usize]) -> Node {
    Node::singletons(
        qubits.to_vec(),
        NodeKind::Collect(Collect {
            synthesizer: SynthesizerType::RzSx,
            param_indices: vec![],
            steps: Vec::new(),
        }),
    )
}

/// A collector with one absorbed gate in its body, so it has angles of its own to synthesize.
fn collect_node_with_gate(qubits: &[usize], gate: StandardGate, gate_qubit: usize) -> Node {
    Node::singletons(
        qubits.to_vec(),
        NodeKind::Collect(Collect {
            synthesizer: SynthesizerType::RzSx,
            param_indices: vec![],
            steps: vec![CollectStep::Gate(AbsorbedGate {
                gate,
                qubits: vec![gate_qubit],
                params: vec![],
            })],
        }),
    )
}

fn measure_node(qubits: &[usize]) -> Node {
    Node::singletons(
        qubits.to_vec(),
        NodeKind::Measure(Measure {
            clbit_indices: vec![0],
        }),
    )
}

fn collect_kind() -> NodeKind {
    NodeKind::Collect(Collect {
        synthesizer: SynthesizerType::RzSx,
        param_indices: vec![0, 1, 2, 3, 4, 5],
        steps: Vec::new(),
    })
}

// --- The graph ----------------------------------------------------------------------------------

#[test]
fn test_construct_emission_node() {
    let node = Node::singletons(
        vec![0, 1],
        NodeKind::Emission(emission(uniform_pauli(), Direction::Right)),
    );
    assert_eq!(node.partition.len(), 2);
    assert!(matches!(node.kind, NodeKind::Emission(_)));
}

#[test]
fn test_emission_label_names_its_source() {
    // The three annotation kinds share one node kind, so the label is the only thing that still distinguishes
    // them.
    assert_eq!(emission_label(&uniform_pauli()), "emit:UniformPauli");
    assert_eq!(
        emission_label(&DistEntry::Basis {
            mode: ChangeBasisMode::MeasurePauli,
            ref_id: "basis_changes.b0".to_string(),
        }),
        "change_basis:basis_changes.b0"
    );
    assert_eq!(
        emission_label(&DistEntry::Noise {
            reference: "n0".to_string(),
            modifier: None,
        }),
        "inject_noise:n0"
    );
}

#[test]
fn test_construct_propagate_node() {
    let node = Node::new(
        vec![0, 1, 2, 3],
        Partition::new(vec![vec![0, 1], vec![2, 3]]).unwrap(),
        NodeKind::Propagate(Propagate {
            gate: StandardGate::CX,
            direction: Direction::Right,
        }),
    );
    assert_eq!(node.partition.len(), 2);
    if let NodeKind::Propagate(ref p) = node.kind {
        assert_eq!(p.gate, StandardGate::CX);
        assert_eq!(p.direction, Direction::Right);
    } else {
        panic!("expected Propagate");
    }
}

#[test]
fn test_construct_collect_node() {
    let node = Node::singletons(
        vec![0, 1, 2],
        NodeKind::Collect(Collect {
            synthesizer: SynthesizerType::RzSx,
            param_indices: vec![0, 1, 2, 3, 4, 5, 6, 7, 8],
            steps: Vec::new(),
        }),
    );
    if let NodeKind::Collect(ref c) = node.kind {
        assert_eq!(c.param_indices.len(), 9);
    } else {
        panic!("expected Collect");
    }
}

#[test]
fn test_construct_measure_node() {
    let node = Node::singletons(
        vec![0, 1],
        NodeKind::Measure(Measure {
            clbit_indices: vec![0, 1],
        }),
    );
    assert!(matches!(node.kind, NodeKind::Measure(_)));
}

#[test]
fn test_construct_reset_node() {
    let node = Node::singletons(vec![3], NodeKind::Reset);
    assert!(matches!(node.kind, NodeKind::Reset));
}

#[test]
fn test_basis_and_noise_are_emissions_too() {
    for entry in [
        DistEntry::Basis {
            mode: ChangeBasisMode::MeasurePauli,
            ref_id: "basis_changes.0".to_string(),
        },
        DistEntry::Noise {
            reference: "noise_model.0".to_string(),
            modifier: Some("modifier.0".to_string()),
        },
    ] {
        let kind = NodeKind::Emission(emission(entry, Direction::Left));
        assert!(matches!(kind, NodeKind::Emission(_)));
        assert!(kind.is_source());
    }
}

#[test]
fn test_sources_and_sinks() {
    let emit = NodeKind::Emission(emission(uniform_pauli(), Direction::Right));
    assert!(emit.is_source() && !emit.is_sink());
    assert!(NodeKind::Reset.is_source() && !NodeKind::Reset.is_sink());
    let collect = collect_kind();
    assert!(collect.is_sink() && !collect.is_source());
    let measure = NodeKind::Measure(Measure {
        clbit_indices: vec![0],
    });
    assert!(measure.is_sink() && !measure.is_source());
}

#[test]
fn test_direction_comes_from_the_node() {
    let emit = NodeKind::Emission(emission(uniform_pauli(), Direction::Left));
    assert_eq!(emit.direction(), Some(Direction::Left));
    let propagate = NodeKind::Propagate(Propagate {
        gate: StandardGate::CX,
        direction: Direction::Right,
    });
    assert_eq!(propagate.direction(), Some(Direction::Right));
    // A collector is where a flow ends, so it has no direction of its own.
    assert_eq!(collect_kind().direction(), None);
}

#[test]
fn test_graph_add_nodes_and_edges() {
    let mut vfg = VirtualFlowGraph::new();

    let emit_idx = vfg.add_node(Node::singletons(
        vec![0, 1],
        NodeKind::Emission(emission(uniform_pauli(), Direction::Right)),
    ));
    let propagate_idx = vfg.add_node(propagate_node(&[0, 1]));
    let collect_idx = vfg.add_node(Node::singletons(vec![0, 1], collect_kind()));

    vfg.add_edge(emit_idx, propagate_idx, Edge::new());
    vfg.add_edge(emit_idx, collect_idx, Edge::new());
    vfg.add_edge(propagate_idx, collect_idx, Edge::new());

    assert_eq!(vfg.num_nodes(), 3);
    assert_eq!(vfg.num_edges(), 3);
    // The reported direction is the source node's, for every edge.
    assert_eq!(
        vfg.edges(),
        vec![
            (0, 1, "right".to_string()),
            (0, 2, "right".to_string()),
            (1, 2, "right".to_string()),
        ]
    );
}

#[test]
fn readouts_say_what_the_graph_holds() {
    let mut vfg = VirtualFlowGraph::new();
    let gone = vfg.add_node(emit_node(&[9]));
    let reset = vfg.add_node(Node::singletons(vec![4], NodeKind::Reset));
    let collect = vfg.add_node(Node::singletons(
        vec![4, 2],
        NodeKind::Collect(Collect {
            synthesizer: SynthesizerType::RzRx,
            param_indices: vec![3, 4],
            steps: vec![
                CollectStep::Local(LocalEmission {
                    qubits: vec![4, 2],
                    partition: Partition::singletons(2),
                    parts: vec![
                        EmitPart {
                            dist: DistKey(0),
                            draw: 0,
                            adjoint: false,
                        },
                        EmitPart {
                            dist: DistKey(0),
                            draw: 1,
                            adjoint: false,
                        },
                    ],
                }),
                CollectStep::Gate(AbsorbedGate {
                    gate: StandardGate::SX,
                    qubits: vec![4],
                    params: vec![],
                }),
            ],
        }),
    ));
    let joint = vfg.add_node(propagate_node_with(
        &[5, 1],
        StandardGate::CX,
        Direction::Left,
    ));
    let measure = vfg.add_node(measure_node(&[1]));
    vfg.remove_node(gone);
    let mut typed = Edge::new();
    typed.virtual_type = Some(VirtualType::C1);
    vfg.add_edge(reset, collect, Edge::new());
    vfg.add_edge(joint, measure, typed);

    let nodes = vfg.nodes();
    assert_eq!(nodes.len(), 4);
    assert_eq!(nodes[0], ("reset".to_string(), vec![4], vec![], vec![]));
    assert_eq!(
        nodes[1],
        (
            "collect:RzRx".to_string(),
            vec![2, 4],
            vec![3, 4],
            vec![
                ("emit".to_string(), vec![2, 4]),
                ("sx".to_string(), vec![4])
            ]
        )
    );
    assert_eq!(
        nodes[2],
        ("propagate:cx".to_string(), vec![1, 5], vec![], vec![])
    );
    assert_eq!(nodes[3], ("measure".to_string(), vec![1], vec![], vec![]));
    assert_eq!(
        vfg.edges(),
        vec![
            (0, 1, "none".to_string()),
            (2, 3, "left".to_string()),
        ]
    );
    assert_eq!(vfg.to_text(), "VirtualFlowGraph(nodes=4, edges=2)");
    assert_eq!(
        vfg.to_dot(),
        "digraph VFG {\n    rankdir=TB;\n    node [shape=box, style=filled, fontname=\"Helvetica\"];\n\
         \x20   n1 [label=\"Reset [4]\", fillcolor=\"#e1d5e7\"];\n\
         \x20   n2 [label=\"Collect(RzRx) [4, 2]\", fillcolor=\"#f8c8dc\"];\n\
         \x20   n3 [label=\"⊲CX [[5, 1]]\", fillcolor=\"#fffacd\"];\n\
         \x20   n4 [label=\"Measure cl[0] [1]\", fillcolor=\"#d5e8d4\"];\n\
         \x20   n1 -> n2 [label=\"\"];\n\
         \x20   n3 -> n4 [label=\"C1\"];\n}\n"
    );
}

#[test]
fn a_rendered_label_is_escaped() {
    let mut vfg = VirtualFlowGraph::new();
    vfg.add_node(Node::singletons(
        vec![0],
        NodeKind::Emission(emission(
            DistEntry::Noise {
                reference: "a\"b\\c".to_string(),
                modifier: None,
            },
            Direction::Right,
        )),
    ));
    assert!(vfg
        .to_dot()
        .contains("n0 [label=\"InjectNoise(a\\\"b\\\\c) ⊳ [0]\", fillcolor=\"#f8cecc\"];"));
}

// --- Pruning ------------------------------------------------------------------------------------

#[test]
fn test_simple_chain_survives() {
    let mut vfg = VirtualFlowGraph::new();
    let e = vfg.add_node(emit_node(&[0, 1]));
    let p = vfg.add_node(propagate_node(&[0, 1]));
    let c = vfg.add_node(collect_node(&[0, 1]));
    vfg.add_edge(e, p, Edge::new());
    vfg.add_edge(p, c, Edge::new());

    prune_unreachable_from_sources(&mut vfg);
    assert_eq!(vfg.num_nodes(), 3);

    prune_unreachable_from_sinks(&mut vfg);
    assert_eq!(vfg.num_nodes(), 3);
}

#[test]
fn test_dead_branch_pruned_by_sink_pass() {
    let mut vfg = VirtualFlowGraph::new();
    let e = vfg.add_node(emit_node(&[0, 1]));
    let p = vfg.add_node(propagate_node(&[0, 1]));
    vfg.add_edge(e, p, Edge::new());

    prune_unreachable_from_sources(&mut vfg);
    assert_eq!(vfg.num_nodes(), 2);

    prune_unreachable_from_sinks(&mut vfg);
    assert_eq!(vfg.num_nodes(), 0);
}

#[test]
fn test_orphan_pruned_by_source_pass() {
    let mut vfg = VirtualFlowGraph::new();
    vfg.add_node(propagate_node(&[0, 1]));

    prune_unreachable_from_sources(&mut vfg);
    assert_eq!(vfg.num_nodes(), 0);
}

#[test]
fn test_diamond_survives() {
    let mut vfg = VirtualFlowGraph::new();
    let e = vfg.add_node(emit_node(&[0, 1, 2, 3]));
    let pa = vfg.add_node(propagate_node(&[0, 1]));
    let pb = vfg.add_node(propagate_node(&[2, 3]));
    let c = vfg.add_node(collect_node(&[0, 1, 2, 3]));
    vfg.add_edge(e, pa, Edge::new());
    vfg.add_edge(e, pb, Edge::new());
    vfg.add_edge(pa, c, Edge::new());
    vfg.add_edge(pb, c, Edge::new());

    prune_unreachable_from_sources(&mut vfg);
    assert_eq!(vfg.num_nodes(), 4);

    prune_unreachable_from_sinks(&mut vfg);
    assert_eq!(vfg.num_nodes(), 4);
}

#[test]
fn test_collect_with_steps_survives_both_passes() {
    // Absorption leaves collectors that nothing propagates into. This one has an absorbed `h` to fold into its
    // angles, so neither pass may drop it however isolated it is.
    let mut vfg = VirtualFlowGraph::new();
    vfg.add_node(collect_node_with_gate(&[0, 1], StandardGate::H, 0));

    prune_unreachable_from_sources(&mut vfg);
    assert_eq!(vfg.num_nodes(), 1);

    prune_unreachable_from_sinks(&mut vfg);
    assert_eq!(vfg.num_nodes(), 1);
}

#[test]
fn test_empty_collect_is_still_pruned() {
    let mut vfg = VirtualFlowGraph::new();
    vfg.add_node(collect_node(&[0, 1]));

    prune_unreachable_from_sources(&mut vfg);
    assert_eq!(vfg.num_nodes(), 0);
}

#[test]
fn test_source_pass_keeps_only_the_collector_with_steps() {
    // Both are unreachable from any source, and they part ways on whether they have steps.
    let mut vfg = VirtualFlowGraph::new();
    let empty = vfg.add_node(collect_node(&[0, 1]));
    let stepped = vfg.add_node(collect_node_with_gate(&[2, 3], StandardGate::S, 2));

    prune_unreachable_from_sources(&mut vfg);
    assert_eq!(vfg.num_nodes(), 1);
    assert!(!vfg.node_indices().contains(&empty));
    assert!(matches!(vfg.node(stepped).kind, NodeKind::Collect(_)));
}

#[test]
fn test_disconnected_source_and_sink() {
    let mut vfg = VirtualFlowGraph::new();
    vfg.add_node(emit_node(&[0, 1]));
    vfg.add_node(collect_node(&[2, 3]));

    prune_unreachable_from_sources(&mut vfg);
    assert_eq!(vfg.num_nodes(), 1);

    prune_unreachable_from_sinks(&mut vfg);
    assert_eq!(vfg.num_nodes(), 0);
}

#[test]
fn test_multiple_source_types() {
    let mut vfg = VirtualFlowGraph::new();
    let e = vfg.add_node(emit_node(&[0, 1]));
    let cb = vfg.add_node(emission_node(&[2, 3], DistKey(1)));
    let inj = vfg.add_node(emission_node(&[4, 5], DistKey(2)));
    let c = vfg.add_node(collect_node(&[0, 1, 2, 3, 4, 5]));
    vfg.add_edge(e, c, Edge::new());
    vfg.add_edge(cb, c, Edge::new());
    vfg.add_edge(inj, c, Edge::new());

    prune_unreachable_from_sources(&mut vfg);
    assert_eq!(vfg.num_nodes(), 4);

    prune_unreachable_from_sinks(&mut vfg);
    assert_eq!(vfg.num_nodes(), 4);
}

#[test]
fn test_measure_is_sink() {
    let mut vfg = VirtualFlowGraph::new();
    let e = vfg.add_node(emit_node(&[0, 1]));
    let m = vfg.add_node(measure_node(&[0, 1]));
    vfg.add_edge(e, m, Edge::new());

    prune_unreachable_from_sources(&mut vfg);
    assert_eq!(vfg.num_nodes(), 2);

    prune_unreachable_from_sinks(&mut vfg);
    assert_eq!(vfg.num_nodes(), 2);
}

#[test]
fn test_reset_is_source() {
    let mut vfg = VirtualFlowGraph::new();
    let r = vfg.add_node(Node::singletons(vec![0], NodeKind::Reset));
    let c = vfg.add_node(collect_node(&[0]));
    vfg.add_edge(r, c, Edge::new());

    prune_unreachable_from_sources(&mut vfg);
    assert_eq!(vfg.num_nodes(), 2);

    prune_unreachable_from_sinks(&mut vfg);
    assert_eq!(vfg.num_nodes(), 2);
}

// --- Virtual types ------------------------------------------------------------------------------

fn get_outgoing_vtypes(vfg: &VirtualFlowGraph, index: u32) -> Vec<Option<VirtualType>> {
    vfg.graph
        .edges_directed(NodeIndex::new(index as usize), PetDirection::Outgoing)
        .map(|edge| edge.weight().virtual_type)
        .collect()
}

#[test]
fn test_edges_start_as_none() {
    let mut vfg = VirtualFlowGraph::new();
    let e = vfg.add_node(emit_node(&[0, 1]));
    let c = vfg.add_node(collect_node(&[0, 1]));
    vfg.add_edge(e, c, Edge::new());

    assert_eq!(get_outgoing_vtypes(&vfg, e), vec![None]);
}

/// An emission, a propagation and a collector in a row, with their types set.
fn typed_chain(source: Node) -> (VirtualFlowGraph, u32, u32) {
    let mut vfg = VirtualFlowGraph::new();
    let e = vfg.add_node(source);
    let p = vfg.add_node(propagate_node(&[0, 1]));
    let c = vfg.add_node(collect_node(&[0, 1]));
    vfg.add_edge(e, p, Edge::new());
    vfg.add_edge(p, c, Edge::new());
    set_virtual_types(&mut vfg);
    (vfg, e, p)
}

#[test]
fn test_emit_pauli_type() {
    let (vfg, e, _) = typed_chain(emit_node(&[0, 1]));
    assert_eq!(get_outgoing_vtypes(&vfg, e), vec![Some(VirtualType::Pauli)]);
}

#[test]
fn test_propagate_pauli_past_clifford_output() {
    let (vfg, _, p) = typed_chain(emit_node(&[0, 1]));
    assert_eq!(get_outgoing_vtypes(&vfg, p), vec![Some(VirtualType::Pauli)]);
}

#[test]
fn test_c1_flow() {
    let (vfg, e, p) = typed_chain(typed_emit_node(&[0, 1], DistributionType::UniformC1));
    assert_eq!(get_outgoing_vtypes(&vfg, e), vec![Some(VirtualType::C1)]);
    assert_eq!(get_outgoing_vtypes(&vfg, p), vec![Some(VirtualType::C1)]);
}

#[test]
fn test_u2_flow() {
    let (vfg, e, p) = typed_chain(typed_emit_node(&[0, 1], DistributionType::HaarU2));
    assert_eq!(get_outgoing_vtypes(&vfg, e), vec![Some(VirtualType::U2)]);
    assert_eq!(get_outgoing_vtypes(&vfg, p), vec![Some(VirtualType::U2)]);
}

fn basis_node(qubits: &[usize], virtual_type: VirtualType) -> Node {
    Node::singletons(
        qubits.to_vec(),
        NodeKind::Emission(Emission {
            key: DistKey(0),
            entry: DistEntry::Basis {
                mode: ChangeBasisMode::MeasurePauli,
                ref_id: "basis_changes.b".to_string(),
            },
            direction: Direction::Left,
            virtual_type,
        }),
    )
}

#[test]
fn test_basis_changes_keep_their_own_types() {
    // Two basis-change emissions into one collector, declaring different types: each edge gets its own source's
    // type.
    let mut vfg = VirtualFlowGraph::new();
    let cb_pauli = vfg.add_node(basis_node(&[0, 1], VirtualType::Pauli));
    let cb_c1 = vfg.add_node(basis_node(&[2, 3], VirtualType::C1));
    let c = vfg.add_node(collect_node(&[0, 1, 2, 3]));
    vfg.add_edge(cb_pauli, c, Edge::new());
    vfg.add_edge(cb_c1, c, Edge::new());

    set_virtual_types(&mut vfg);

    assert_eq!(
        get_outgoing_vtypes(&vfg, cb_pauli),
        vec![Some(VirtualType::Pauli)]
    );
    assert_eq!(
        get_outgoing_vtypes(&vfg, cb_c1),
        vec![Some(VirtualType::C1)]
    );
}

#[test]
fn test_reset_is_pauli() {
    let mut vfg = VirtualFlowGraph::new();
    let r = vfg.add_node(Node::singletons(vec![0], NodeKind::Reset));
    let c = vfg.add_node(collect_node(&[0]));
    vfg.add_edge(r, c, Edge::new());

    set_virtual_types(&mut vfg);

    assert_eq!(get_outgoing_vtypes(&vfg, r), vec![Some(VirtualType::Pauli)]);
}

#[test]
fn test_inject_noise_is_pauli() {
    let mut vfg = VirtualFlowGraph::new();
    let inj = vfg.add_node(Node::singletons(
        vec![0, 1],
        NodeKind::Emission(Emission {
            key: DistKey(0),
            entry: DistEntry::Noise {
                reference: "n0".to_string(),
                modifier: None,
            },
            direction: Direction::Left,
            virtual_type: VirtualType::Pauli,
        }),
    ));
    let c = vfg.add_node(collect_node(&[0, 1]));
    vfg.add_edge(inj, c, Edge::new());

    set_virtual_types(&mut vfg);

    assert_eq!(
        get_outgoing_vtypes(&vfg, inj),
        vec![Some(VirtualType::Pauli)]
    );
}

// --- Merging parallel nodes ---------------------------------------------------------------------

/// An emission into two nodes into one collector.
fn diamond(source: Node, one: Node, other: Node, sink: Node) -> VirtualFlowGraph {
    let mut vfg = VirtualFlowGraph::new();
    let e = vfg.add_node(source);
    let pa = vfg.add_node(one);
    let pb = vfg.add_node(other);
    let c = vfg.add_node(sink);
    vfg.add_edge(e, pa, Edge::new());
    vfg.add_edge(e, pb, Edge::new());
    vfg.add_edge(pa, c, Edge::new());
    vfg.add_edge(pb, c, Edge::new());
    vfg
}

#[test]
fn test_parallel_propagates_merge() {
    let mut vfg = diamond(
        emit_node(&[0, 1, 2, 3]),
        propagate_node(&[0, 1]),
        propagate_node(&[2, 3]),
        collect_node(&[0, 1, 2, 3]),
    );

    merge_parallel_nodes(&mut vfg);

    assert_eq!(vfg.num_nodes(), 3);

    let prop_nodes: Vec<u32> = vfg
        .node_indices()
        .into_iter()
        .filter(|&index| matches!(vfg.node(index).kind, NodeKind::Propagate(_)))
        .collect();
    assert_eq!(prop_nodes.len(), 1);
    assert_eq!(vfg.node(prop_nodes[0]).partition.len(), 2);
}

#[test]
fn test_different_gates_no_merge() {
    let mut vfg = diamond(
        emit_node(&[0, 1, 2, 3]),
        propagate_node_with_gate(&[0, 1], StandardGate::CX),
        propagate_node_with_gate(&[2, 3], StandardGate::H),
        collect_node(&[0, 1, 2, 3]),
    );

    merge_parallel_nodes(&mut vfg);

    assert_eq!(vfg.num_nodes(), 4);
}

#[test]
fn test_opposite_directions_no_merge() {
    // Conjugating the same gate leftward and rightward are different operations.
    let mut vfg = diamond(
        emit_node(&[0, 1, 2, 3]),
        propagate_node_with(&[0, 1], StandardGate::CX, Direction::Right),
        propagate_node_with(&[2, 3], StandardGate::CX, Direction::Left),
        collect_node(&[0, 1, 2, 3]),
    );

    merge_parallel_nodes(&mut vfg);

    assert_eq!(vfg.num_nodes(), 4);
}

#[test]
fn test_overlapping_partitions_no_merge() {
    let mut vfg = diamond(
        emit_node(&[0, 1, 2]),
        propagate_node(&[0, 1]),
        propagate_node(&[1, 2]),
        collect_node(&[0, 1, 2]),
    );

    merge_parallel_nodes(&mut vfg);

    assert_eq!(vfg.num_nodes(), 4);
}

#[test]
fn test_no_shared_predecessor_no_merge() {
    let mut vfg = VirtualFlowGraph::new();
    let ea = vfg.add_node(emit_node(&[0, 1]));
    let eb = vfg.add_node(emit_node(&[2, 3]));
    let pa = vfg.add_node(propagate_node(&[0, 1]));
    let pb = vfg.add_node(propagate_node(&[2, 3]));
    let c = vfg.add_node(collect_node(&[0, 1, 2, 3]));
    vfg.add_edge(ea, pa, Edge::new());
    vfg.add_edge(eb, pb, Edge::new());
    vfg.add_edge(pa, c, Edge::new());
    vfg.add_edge(pb, c, Edge::new());

    merge_parallel_nodes(&mut vfg);

    assert_eq!(vfg.num_nodes(), 5);
}

#[test]
fn test_predecessorless_resets_merge() {
    let mut vfg = VirtualFlowGraph::new();
    let ra = vfg.add_node(Node::singletons(vec![0], NodeKind::Reset));
    let rb = vfg.add_node(Node::singletons(vec![1], NodeKind::Reset));
    let c = vfg.add_node(collect_node(&[0, 1]));
    vfg.add_edge(ra, c, Edge::new());
    vfg.add_edge(rb, c, Edge::new());

    merge_parallel_nodes(&mut vfg);

    assert_eq!(vfg.num_nodes(), 2);

    let reset_nodes: Vec<u32> = vfg
        .node_indices()
        .into_iter()
        .filter(|&index| matches!(vfg.node(index).kind, NodeKind::Reset))
        .collect();
    assert_eq!(reset_nodes.len(), 1);
    assert_eq!(vfg.node(reset_nodes[0]).partition.len(), 2);
}

#[test]
fn test_measures_merge() {
    let mut vfg = VirtualFlowGraph::new();
    let e = vfg.add_node(emit_node(&[0, 1, 2, 3]));
    let ma = vfg.add_node(Node::singletons(
        vec![0, 1],
        NodeKind::Measure(Measure {
            clbit_indices: vec![0, 1],
        }),
    ));
    let mb = vfg.add_node(Node::singletons(
        vec![2, 3],
        NodeKind::Measure(Measure {
            clbit_indices: vec![2, 3],
        }),
    ));
    vfg.add_edge(e, ma, Edge::new());
    vfg.add_edge(e, mb, Edge::new());

    merge_parallel_nodes(&mut vfg);

    assert_eq!(vfg.num_nodes(), 2);

    let meas_nodes: Vec<u32> = vfg
        .node_indices()
        .into_iter()
        .filter(|&index| matches!(vfg.node(index).kind, NodeKind::Measure(_)))
        .collect();
    assert_eq!(meas_nodes.len(), 1);
    if let NodeKind::Measure(m) = &vfg.node(meas_nodes[0]).kind {
        assert_eq!(m.clbit_indices.len(), 4);
        // The node joined last comes first among its predecessor's successors.
        assert_eq!(m.clbit_indices, vec![2, 3, 0, 1]);
    } else {
        panic!("expected Measure");
    }
}

#[test]
fn test_edge_deduplication() {
    let mut vfg = diamond(
        emit_node(&[0, 1, 2, 3]),
        propagate_node(&[0, 1]),
        propagate_node(&[2, 3]),
        collect_node(&[0, 1, 2, 3]),
    );

    merge_parallel_nodes(&mut vfg);

    assert_eq!(vfg.num_edges(), 2);
}
