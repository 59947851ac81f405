//! The tests a caller makes of a circuit before running a pass on it.

use samplex::annotated_circuit::Annotation;
use samplex::annotated_circuit::DistributionType;
use samplex::annotated_circuit::Dressing;
use samplex::annotated_circuit::SynthesizerType;
use samplex::annotated_circuit::TwirlSpec;
use samplex::circuit::Circuit;
use samplex::circuit::Operation;
use samplex::distributions::DistKey;
use samplex::emission_circuit::Collect;
use samplex::emission_circuit::Emit;
use samplex::emission_circuit::EmitPart;
use samplex::emission_circuit_navigation::append;
use samplex::emission_circuit_navigation::new_dag_body;
use samplex::emission_circuit_navigation::write_box;
use samplex::partition::Partition;
use samplex::passes::absorb_dressing;
use samplex::passes::build;
use samplex::passes::build_template;
use samplex::passes::limits::all_travel;
use samplex::passes::limits::drawing_fits;
use samplex::passes::limits::is_equipped;
use samplex::passes::limits::is_grouped;
use samplex::passes::limits::is_lowerable;
use samplex::passes::limits::is_valid;
use samplex::passes::limits::is_well_formed;
use samplex::passes::limits::lowering_fits;
use samplex::passes::limits::merging_fits;
use samplex::passes::limits::size;
use samplex::passes::limits::synthesizers_named;
use samplex::passes::limits::template_fits;
use samplex::passes::lower;
use samplex::passes::merge_collectors;
use samplex::passes::merge_parallel_nodes;
use samplex::standard_gate::StandardGate;
use samplex::virtual_flow_graph::Direction;
use samplex::virtual_flow_graph::Node;
use samplex::virtual_flow_graph::NodeKind;
use samplex::virtual_flow_graph::SamplingGraph;

fn gate(out: &mut Circuit, gate: StandardGate, qubits: &[usize]) {
    append(out, Operation::Gate(gate), vec![], qubits, &[]);
}

fn twirled() -> Circuit {
    let mut body = new_dag_body(2, 0, 2);
    gate(&mut body, StandardGate::H, &[0]);
    gate(&mut body, StandardGate::CX, &[0, 1]);
    let mut out = new_dag_body(2, 0, 1);
    write_box(
        &mut out,
        body,
        vec![Annotation::Twirl(TwirlSpec {
            distribution: DistributionType::UniformPauli,
            dressing: Dressing::Left,
            decomposition: SynthesizerType::RzSx,
        })],
        None,
        &[0, 1],
        &[],
    );
    out
}

fn emit(direction: Option<Direction>) -> Operation {
    Operation::Emit(Emit {
        direction,
        partition: Partition::singletons(1),
        parts: vec![EmitPart {
            dist: DistKey(0),
            draw: 0,
            adjoint: false,
        }],
    })
}

#[test]
fn every_stage_of_the_chain_is_valid_in_either_order() {
    for absorb_first in [true, false] {
        let (mut dag, _table) = build(&twirled()).unwrap();
        assert!(is_well_formed(&dag) && is_valid(&dag));
        for absorb in [absorb_first, !absorb_first] {
            if absorb {
                absorb_dressing(&mut dag).unwrap();
            } else {
                merge_collectors(&mut dag).unwrap();
            }
            assert!(is_well_formed(&dag) && is_valid(&dag));
        }
        assert!(lowering_fits(&dag));
    }
}

#[test]
fn a_circuit_is_well_formed_or_not() {
    let mut dag = new_dag_body(2, 0, 2);
    gate(&mut dag, StandardGate::CX, &[0, 1]);
    gate(&mut dag, StandardGate::H, &[1]);
    assert!(is_well_formed(&dag));
    dag.ops[1].node = 0;
    assert!(!is_well_formed(&dag), "a node number is nobody else's");
    dag.ops[1].node = 7;
    assert!(is_well_formed(&dag));
    dag.ops[0].qubits = vec![1, 1];
    assert!(!is_well_formed(&dag), "a wire is named once");
    dag.ops[0].qubits = vec![1, 2];
    assert!(!is_well_formed(&dag), "a wire is one of the circuit's");
    dag.ops[0].qubits = vec![1];
    assert!(!is_well_formed(&dag), "a gate is as wide as its qubits are many");
    dag.ops[0].qubits = vec![1, 0];
    assert!(is_well_formed(&dag));

    let mut boxed = twirled();
    boxed.ops[0].blocks[0].num_qubits = 3;
    assert!(!is_well_formed(&boxed), "a body is as wide as its box");
}

#[test]
fn an_emission_circuit_is_valid_or_not() {
    let mut dag = new_dag_body(1, 0, 1);
    append(&mut dag, emit(Some(Direction::Left)), vec![], &[0], &[]);
    assert!(is_valid(&dag));
    let mut local = new_dag_body(1, 0, 1);
    append(&mut local, emit(None), vec![], &[0], &[]);
    assert!(!is_valid(&local), "an emission outside a collector travels");

    let collect = |partition: Partition| {
        let mut spec = Collect::bare(SynthesizerType::RzSx);
        spec.partition = partition;
        Annotation::Collect(spec)
    };
    let mut body = new_dag_body(1, 0, 1);
    append(&mut body, emit(None), vec![], &[0], &[]);
    let mut dag = new_dag_body(1, 0, 1);
    write_box(&mut dag, body, vec![collect(Partition::singletons(1))], None, &[0], &[]);
    assert!(is_valid(&dag), "an emission inside a collector does not");

    let mut narrow = new_dag_body(1, 0, 1);
    write_box(
        &mut narrow,
        new_dag_body(1, 0, 0),
        vec![collect(Partition::singletons(0))],
        None,
        &[0],
        &[],
    );
    assert!(!is_valid(&narrow), "a collector partitions its qubits");

    let mut body = new_dag_body(1, 0, 1);
    append(&mut body, Operation::Reset, vec![], &[0], &[]);
    let mut held = new_dag_body(1, 0, 1);
    write_box(&mut held, body, vec![collect(Partition::singletons(1))], None, &[0], &[]);
    assert!(!is_valid(&held), "a collector holds gates and emissions");
}

#[test]
fn sizes_count_what_is_inside() {
    assert_eq!(size(&twirled()), Some(3));
    assert_eq!(size(&new_dag_body(4, 4, 0)), Some(0));
    assert!(drawing_fits(&twirled()));
    assert!(lowering_fits(&new_dag_body(0, 0, 0)));
}

#[test]
fn a_circuit_with_too_much_to_meet_does_not_fit() {
    let mut dag = new_dag_body(1, 0, 0);
    for _ in 0..40_000 {
        gate(&mut dag, StandardGate::H, &[0]);
    }
    assert!(lowering_fits(&dag));
    for _ in 0..40_000 {
        append(&mut dag, emit(Some(Direction::Right)), vec![], &[0], &[]);
    }
    assert!(!lowering_fits(&dag));
}

/// A collector on one qubit with some body, partitioned some way.
fn collector(partition: Partition, body: Circuit) -> Circuit {
    let mut spec = Collect::bare(SynthesizerType::RzSx);
    spec.partition = partition;
    let mut dag = new_dag_body(1, 0, 1);
    write_box(&mut dag, body, vec![Annotation::Collect(spec)], None, &[0], &[]);
    dag
}

#[test]
fn each_pass_asks_for_no_more_than_it_reads() {
    let bare = collector(Partition::singletons(0), new_dag_body(1, 0, 0));
    assert!(!is_equipped(&bare), "merging reads the partition");
    assert!(synthesizers_named(&bare) && is_lowerable(&bare) && all_travel(&bare));
    let (template, collectors) = build_template(&bare).unwrap();
    assert_eq!(collectors[0].param_indices, vec![0, 1, 2]);
    let (_, table) = build(&new_dag_body(1, 0, 0)).unwrap();
    let (again, graph, _) = lower(&bare, &table).unwrap();
    assert_eq!(again.ops.len(), template.ops.len());
    assert_eq!(graph.num_nodes(), 1);
    assert!(!is_grouped(&graph), "and merging parallel nodes reads it too");

    let mut body = new_dag_body(1, 0, 1);
    append(&mut body, Operation::Reset, vec![], &[0], &[]);
    let held = collector(Partition::singletons(1), body);
    assert!(is_equipped(&held) && synthesizers_named(&held));
    assert!(!is_lowerable(&held), "reading a track reads what a collector holds");
    let (_, collectors) = build_template(&held).unwrap();
    assert_eq!(collectors[0].param_indices, vec![0, 1, 2], "writing a template does not");

    let mut nameless = collector(Partition::singletons(1), new_dag_body(1, 0, 0));
    assert!(is_equipped(&nameless) && is_lowerable(&nameless));
    if let Operation::Box { annotations, .. } = &mut nameless.ops[0].op {
        if let Annotation::Collect(spec) = &mut annotations[0] {
            spec.parts.clear();
        }
    }
    assert!(!is_equipped(&nameless) && !synthesizers_named(&nameless) && !is_lowerable(&nameless));

    let mut local = new_dag_body(1, 0, 1);
    append(&mut local, emit(None), vec![], &[0], &[]);
    assert!(!all_travel(&local) && is_lowerable(&local));
    let mut outer = new_dag_body(1, 0, 1);
    write_box(&mut outer, local, vec![], None, &[0], &[]);
    assert!(!all_travel(&outer), "a box hides nothing");
    let mut inside = new_dag_body(1, 0, 1);
    append(&mut inside, emit(None), vec![], &[0], &[]);
    assert!(all_travel(&collector(Partition::singletons(1), inside)));
}

#[test]
fn templates_and_graphs_fit_while_they_can_be_counted() {
    let (dag, table) = build(&twirled()).unwrap();
    assert!(template_fits(&dag));
    let (_, mut graph, _) = lower(&dag, &table).unwrap();
    assert!(is_grouped(&graph) && merging_fits(&graph));
    merge_parallel_nodes(&mut graph);
    assert!(is_grouped(&graph) && merging_fits(&graph));
    let mut crooked = SamplingGraph::new();
    crooked.add_node(Node::new(vec![0, 1], Partition::singletons(1), NodeKind::Reset));
    assert!(!is_grouped(&crooked));
}
