//! What holds of every circuit, graph and table, on a few of each.

use samplex::annotated_circuit::resolve_annotations;
use samplex::annotated_circuit::Annotation;
use samplex::annotated_circuit::ChangeBasisMode;
use samplex::annotated_circuit::ChangeBasisSpec;
use samplex::annotated_circuit::DistributionType;
use samplex::annotated_circuit::Dressing;
use samplex::annotated_circuit::ForeignAnnotation;
use samplex::annotated_circuit::InjectNoiseSpec;
use samplex::annotated_circuit::InjectionSite;
use samplex::annotated_circuit::Placement;
use samplex::annotated_circuit::SynthesizerType;
use samplex::annotated_circuit::TwirlSpec;
use samplex::circuit::Circuit;
use samplex::circuit::Operation;
use samplex::distributions::DistributionTable;
use samplex::emission_circuit::Collect;
use samplex::emission_circuit::CollectPart;
use samplex::emission_circuit_navigation::append;
use samplex::emission_circuit_navigation::collectors;
use samplex::emission_circuit_navigation::new_dag_body;
use samplex::emission_circuit_navigation::write_box;
use samplex::emission_circuit_navigation::EmissionTally;
use samplex::emission_circuit_navigation::ScopeOrder;
use samplex::emission_circuit_navigation::Sighting;
use samplex::emission_circuit_navigation::Site;
use samplex::emission_circuit_navigation::WireCursor;
use samplex::error::SamplexError;
use samplex::order::arrange;
use samplex::order::in_order;
use samplex::overlap::coarsened;
use samplex::parameters::template_name;
use samplex::parameters::ParameterExpression;
use samplex::parameters::ParameterTable;
use samplex::parameters::Symbol;
use samplex::parameters::Value;
use samplex::partition::Partition;
use samplex::passes::build_template;
use samplex::passes::lower;
use samplex::passes::prune_unreachable_from_sinks;
use samplex::passes::prune_unreachable_from_sources;
use samplex::passes::set_virtual_types;
use samplex::standard_gate::StandardGate;
use samplex::virtual_flow_graph::Collect as CollectNode;
use samplex::virtual_flow_graph::Direction;
use samplex::virtual_flow_graph::Edge;
use samplex::virtual_flow_graph::Node;
use samplex::virtual_flow_graph::NodeKind;
use samplex::virtual_flow_graph::Propagate;
use samplex::virtual_flow_graph::VirtualFlowGraph;
use samplex::virtual_type::VirtualType;

fn gate(out: &mut Circuit, gate: StandardGate, qubits: &[usize]) {
    append(out, Operation::Gate(gate), vec![], qubits, &[]);
}

fn content() -> Vec<Annotation> {
    vec![Annotation::Foreign(ForeignAnnotation {
        namespace: "someone.else".to_string(),
        handle: 1,
    })]
}

fn collecting(parts: Vec<Vec<usize>>, synthesizer: SynthesizerType) -> Vec<Annotation> {
    let count = parts.len();
    vec![Annotation::Collect(Collect {
        partition: Partition::new(parts).unwrap(),
        parts: (0..count).map(|_| CollectPart { synthesizer }).collect(),
    })]
}

/// A circuit with one collect box on these wires, holding nothing.
fn one_collector(num_qubits: usize, wires: &[usize], parts: Vec<Vec<usize>>) -> Circuit {
    let mut root = new_dag_body(num_qubits, 0, 1);
    write_box(
        &mut root,
        new_dag_body(wires.len(), 0, 0),
        collecting(parts, SynthesizerType::RzSx),
        None,
        wires,
        &[],
    );
    root
}

// --- Order --------------------------------------------------------------------------------------

#[test]
fn a_list_in_order_keeps_hold_of_where_everything_stood() {
    let values = vec![7, 3, 9, 3];
    let order = in_order(&values);
    assert_eq!(order, vec![1, 3, 0, 2]);
    assert_eq!(arrange(&values, &order), vec![3, 3, 7, 9]);
}

#[test]
fn a_partition_follows_its_items_into_another_order() {
    let partition = Partition::new(vec![vec![0], vec![2, 1]]).unwrap();
    let items = vec![30, 50, 40];
    let order = in_order(&items);
    let after = partition.reindexed(&order);
    assert_eq!(order, vec![0, 2, 1]);
    assert_eq!(after, Partition::new(vec![vec![0], vec![1, 2]]).unwrap());
    assert_eq!(after.groups(&arrange(&items, &order)), partition.groups(&items));
}

#[test]
fn groups_rearrange_what_they_group() {
    let partition = Partition::new(vec![vec![2, 0], vec![1]]).unwrap();
    let mut all = partition.groups(&[5, 6, 5]).concat();
    all.sort();
    assert_eq!(all, vec![5, 5, 6]);
    assert_eq!(partition.groups(&[0, 1, 2]), vec![vec![2, 0], vec![1]]);
    assert_eq!(partition.groups(&[50, 60, 70]), vec![vec![70, 50], vec![60]]);
}

#[test]
fn a_collector_lists_its_qubits_in_ascending_order() {
    let root = one_collector(2, &[1, 0], vec![vec![0], vec![1]]);
    let (template, params) = build_template(&root).unwrap();
    assert_eq!(params.len(), 1);
    assert_eq!(params[0].qubits, vec![0, 1]);
    assert_eq!(params[0].param_indices, vec![0, 1, 2, 3, 4, 5]);
    // The fragment of the lower qubit is written first, on the lower angles.
    assert_eq!(template.ops[0].qubits, vec![0]);
    assert_eq!(template.ops[5].qubits, vec![1]);
}

#[test]
fn a_collectors_node_has_the_qubits_its_angles_are_grouped_by() {
    let root = one_collector(3, &[2, 0, 1], vec![vec![0], vec![2, 1]]);
    let (_template, graph, _parameters) = lower(&root, &DistributionTable::new()).unwrap();
    let node = graph.node(graph.node_indices()[0]);
    assert_eq!(node.qubits, vec![0, 1, 2]);
    // The joint subsystem on qubits 1 and 0, and the one on qubit 2, in their own order.
    assert_eq!(
        node.partition,
        Partition::new(vec![vec![2], vec![1, 0]]).unwrap()
    );
}

#[test]
fn a_nested_collector_is_in_order_of_the_circuits_qubits() {
    let inner = one_collector(2, &[0, 1], vec![vec![0, 1]]);
    let mut root = new_dag_body(2, 0, 1);
    write_box(&mut root, inner, content(), None, &[1, 0], &[]);
    let (template, params) = build_template(&root).unwrap();
    assert_eq!(params[0].qubits, vec![0, 1]);
    // Qubit 0 of the circuit is wire 1 of the box.
    assert_eq!(template.ops[0].blocks[0].ops[0].qubits, vec![1]);
}

// --- Walking ------------------------------------------------------------------------------------

/// An `h`, an empty box, a box of `x` and `y`, a `z`, all along wire 1.
fn street() -> Circuit {
    let mut pair = new_dag_body(2, 0, 2);
    gate(&mut pair, StandardGate::X, &[0]);
    gate(&mut pair, StandardGate::Y, &[0]);
    let mut root = new_dag_body(2, 0, 4);
    gate(&mut root, StandardGate::H, &[1]);
    write_box(&mut root, new_dag_body(1, 0, 0), content(), None, &[1], &[]);
    write_box(&mut root, pair, content(), None, &[1, 0], &[]);
    gate(&mut root, StandardGate::Z, &[1]);
    root
}

#[test]
fn stepping_back_undoes_a_step() {
    let root = street();
    let start = Site {
        scope: vec![],
        node: 0,
    };
    let mut cursor = WireCursor::at(&start, 1);
    let mut stops = vec![start];
    while let Some(site) = cursor.advance(&root, Direction::Right).unwrap() {
        let (mut back, was) = cursor.peek(&root, Direction::Left).unwrap().unwrap();
        assert_eq!(&was, stops.last().unwrap());
        assert_eq!(back.advance(&root, Direction::Right).unwrap().unwrap(), site);
        stops.push(site);
    }
    assert_eq!(stops.len(), 4);
    assert_eq!(stops[1].scope, vec![2]);
}

#[test]
fn wires_are_read_in_the_frame_of_an_enclosing_scope_only() {
    let root = street();
    let site = Site {
        scope: vec![2],
        node: 0,
    };
    assert_eq!(site.qubits_in(&root, &[]), Ok(vec![1]));
    assert_eq!(site.qubits_in(&root, &[2]), Ok(vec![0]));
    // A box beside its own.
    assert_eq!(
        site.qubits_in(&root, &[1]),
        Err(SamplexError::LiftIntoDeeperScope)
    );
}

#[test]
fn a_sweep_reports_every_collector_as_asked() {
    let mut deep = new_dag_body(1, 0, 1);
    write_box(&mut deep, new_dag_body(1, 0, 0), collecting(vec![vec![0]], SynthesizerType::RzRx), None, &[0], &[]);
    let mut inner = new_dag_body(1, 0, 2);
    write_box(&mut inner, deep, content(), None, &[0], &[]);
    write_box(&mut inner, new_dag_body(1, 0, 0), collecting(vec![vec![0]], SynthesizerType::RzRx), None, &[0], &[]);
    let mut root = new_dag_body(1, 0, 3);
    write_box(&mut root, new_dag_body(1, 0, 0), collecting(vec![vec![0]], SynthesizerType::RzRx), None, &[0], &[]);
    write_box(&mut root, inner, content(), None, &[0], &[]);
    write_box(&mut root, new_dag_body(1, 0, 0), collecting(vec![vec![0]], SynthesizerType::RzRx), None, &[0], &[]);
    let paths = |order: ScopeOrder| -> Vec<Vec<usize>> {
        collectors(&root, order)
            .unwrap()
            .iter()
            .map(|site| site.path())
            .collect()
    };
    assert_eq!(
        paths(ScopeOrder::Outermost),
        vec![vec![0], vec![2], vec![1, 1], vec![1, 0, 0]]
    );
    assert_eq!(
        paths(ScopeOrder::Innermost),
        vec![vec![1, 0, 0], vec![1, 1], vec![0], vec![2]]
    );
}

#[test]
fn tallies_add_up() {
    let first = [Sighting::Emission(Some(Direction::Left)), Sighting::EasyGate];
    let second = [Sighting::Emission(None)];
    let both = [first[0], first[1], second[0]];
    let mut tally = EmissionTally::from_sightings(&first);
    tally.add(EmissionTally::from_sightings(&second));
    assert_eq!(tally, EmissionTally::from_sightings(&both));
    tally.add(EmissionTally::default());
    assert_eq!(tally, EmissionTally::from_sightings(&both));
    assert!(tally.any());
}

// --- Tables and annotations ---------------------------------------------------------------------

fn symbol(name: &str, uuid: u128) -> Symbol {
    Symbol {
        fullname: name.to_string(),
        uuid,
    }
}

fn sum(symbols: Vec<Symbol>) -> ParameterExpression {
    ParameterExpression {
        text: "t + u".to_string(),
        symbols,
        value: Value::Undefined,
    }
}

#[test]
fn an_expression_is_the_same_however_its_symbols_are_listed() {
    let one = sum(vec![symbol("t", 1), symbol("u", 2)]);
    let other = sum(vec![symbol("u", 2), symbol("t", 1), symbol("u", 2)]);
    assert_eq!(one, other);
    assert_ne!(one, sum(vec![symbol("t", 1)]));
    assert_eq!(other.num_symbols(), 2);
    let mut table = ParameterTable::new();
    let key = table.intern(one);
    assert_eq!(table.intern(other), key);
    assert_eq!(table.len(), 1);
    assert_ne!(table.intern(sum(vec![symbol("t", 1), symbol("u", 3)])), key);
}

#[test]
fn template_names_ascend_with_their_indices() {
    assert_eq!(template_name(7), "p0007");
    assert!(template_name(99) < template_name(100));
    assert!(template_name(9998) < template_name(9999));
    // Past four digits a longer name may come first.
    assert!(template_name(10000) < template_name(9999));
    assert!(template_name(1000) < template_name(10000));
    assert!(template_name(10000) < template_name(99999));
}

#[test]
fn the_order_of_annotations_does_not_matter() {
    let twirl = || {
        Annotation::Twirl(TwirlSpec {
            distribution: DistributionType::UniformPauli,
            dressing: Dressing::Left,
            decomposition: SynthesizerType::RzRx,
        })
    };
    let basis = || {
        Annotation::ChangeBasis(ChangeBasisSpec {
            mode: ChangeBasisMode::MeasurePauli,
            reference: "b".to_string(),
            placement: Placement::End,
            decomposition: SynthesizerType::RzSx,
        })
    };
    let noise = || {
        Annotation::InjectNoise(InjectNoiseSpec {
            reference: "n".to_string(),
            modifier: None,
            site: InjectionSite::After,
        })
    };
    let stranger = || content().pop().unwrap();
    let one = resolve_annotations(&[twirl(), basis(), noise()]).unwrap();
    let other = resolve_annotations(&[stranger(), noise(), stranger(), basis(), twirl()]).unwrap();
    assert_eq!(one, other);
    assert_eq!(
        resolve_annotations(&[basis(), noise()]),
        resolve_annotations(&[noise(), stranger(), basis()])
    );
}

#[test]
fn groups_coarsen_alike_in_any_order() {
    let one = coarsened(6, &vec![vec![4, 1], vec![5, 0], vec![1, 3]]);
    let other = coarsened(6, &vec![vec![1, 3], vec![0, 5], vec![1, 4]]);
    assert_eq!(one, other);
    assert_eq!(
        one,
        Partition::new(vec![vec![0, 5], vec![1, 3, 4], vec![2]]).unwrap()
    );
}

// --- Graphs -------------------------------------------------------------------------------------

fn reset() -> Node {
    Node::singletons(vec![0], NodeKind::Reset)
}

fn propagate() -> Node {
    Node::singletons(
        vec![0],
        NodeKind::Propagate(Propagate {
            gate: StandardGate::H,
            direction: Direction::Right,
        }),
    )
}

fn collect() -> Node {
    Node::singletons(
        vec![0],
        NodeKind::Collect(CollectNode {
            synthesizer: SynthesizerType::RzSx,
            param_indices: vec![],
            steps: vec![],
        }),
    )
}

/// A line from a reset to a collector, a dead end off it, and an orphan leading into it.
fn branches() -> VirtualFlowGraph {
    let mut graph = VirtualFlowGraph::new();
    let source = graph.add_node(reset());
    let middle = graph.add_node(propagate());
    let sink = graph.add_node(collect());
    let dead = graph.add_node(propagate());
    let orphan = graph.add_node(propagate());
    graph.add_edge(source, middle, Edge::new());
    graph.add_edge(middle, sink, Edge::new());
    graph.add_edge(middle, dead, Edge::new());
    graph.add_edge(orphan, middle, Edge::new());
    graph
}

#[test]
fn the_prunes_commute() {
    let mut one = branches();
    prune_unreachable_from_sources(&mut one);
    prune_unreachable_from_sinks(&mut one);
    let mut other = branches();
    prune_unreachable_from_sinks(&mut other);
    prune_unreachable_from_sources(&mut other);
    assert_eq!(one.to_dot(), other.to_dot());
    assert_eq!(one.node_indices(), vec![0, 1, 2]);
}

#[test]
fn types_follow_the_flow_and_settle_at_once() {
    let mut graph = branches();
    set_virtual_types(&mut graph);
    let first = graph.to_dot();
    let types: Vec<Option<VirtualType>> = graph
        .graph
        .edge_weights()
        .map(|edge| edge.virtual_type)
        .collect();
    assert_eq!(
        types,
        vec![
            Some(VirtualType::Pauli),
            Some(VirtualType::Pauli),
            Some(VirtualType::Pauli),
            None
        ]
    );
    set_virtual_types(&mut graph);
    assert_eq!(graph.to_dot(), first);
}
