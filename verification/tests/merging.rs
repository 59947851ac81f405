//! Fusing collectors that meet, and letting collectors out of the boxes they stand at the edge of.

use samplex::annotated_circuit::Annotation;
use samplex::annotated_circuit::DistributionType;
use samplex::annotated_circuit::Dressing;
use samplex::annotated_circuit::SynthesizerType;
use samplex::annotated_circuit::TwirlSpec;
use samplex::circuit::Circuit;
use samplex::circuit::Operation;
use samplex::distributions::DistKey;
use samplex::emission_circuit::Collect;
use samplex::emission_circuit::CollectPart;
use samplex::emission_circuit::Emit;
use samplex::emission_circuit::EmitPart;
use samplex::emission_circuit_navigation::append;
use samplex::emission_circuit_navigation::collect_op;
use samplex::emission_circuit_navigation::is_box;
use samplex::emission_circuit_navigation::is_collector;
use samplex::emission_circuit_navigation::new_dag_body;
use samplex::emission_circuit_navigation::write_box;
use samplex::emission_circuit_navigation::EmissionTally;
use samplex::emission_circuit_navigation::Sighting;
use samplex::error::SamplexError;
use samplex::overlap::coarsened;
use samplex::partition::Partition;
use samplex::passes::build;
use samplex::passes::escape_collectors::hazards_clear;
use samplex::passes::merge_collectors;
use samplex::standard_gate::StandardGate;
use samplex::virtual_flow_graph::Direction;

fn twirl() -> Annotation {
    Annotation::Twirl(TwirlSpec {
        distribution: DistributionType::UniformPauli,
        dressing: Dressing::Left,
        decomposition: SynthesizerType::RzSx,
    })
}

/// A one-qubit annotated circuit of `count` twirled boxes in a row, each holding one gate.
fn twirled_chain(count: usize) -> Circuit {
    let mut out = new_dag_body(1, 0, count * 2);
    for _ in 0..count {
        let mut body = new_dag_body(1, 0, 1);
        append(&mut body, Operation::Gate(StandardGate::H), vec![], &[0], &[]);
        write_box(&mut out, body, vec![twirl()], None, &[0], &[]);
    }
    out
}

fn collector_count(dag: &Circuit) -> usize {
    dag.ops.iter().filter(|inst| is_collector(inst)).count()
}

fn box_count(dag: &Circuit) -> usize {
    dag.ops.iter().filter(|inst| is_box(inst)).count()
}

#[test]
fn test_merge_joins_adjacent_collectors_sharing_synthesizer() {
    // `build` is deliberately local: it writes a collector on each edge of each box and never looks sideways. Two
    // twirled boxes in a row therefore meet back to back with two collectors between them, and joining that pair
    // into one is this pass's whole reason to exist.
    let (mut dag, _table) = build(&twirled_chain(2)).unwrap();
    assert_eq!(collector_count(&dag), 4, "build collects on all four edges");
    assert_eq!(box_count(&dag), 6, "two content boxes among them");

    merge_collectors(&mut dag).unwrap();

    assert_eq!(
        collector_count(&dag),
        3,
        "the two collectors that met in the middle fuse into one"
    );
    assert_eq!(
        box_count(&dag),
        5,
        "the content boxes are untouched: merging joins collectors, not content"
    );
}

#[test]
fn test_merge_leaves_a_lone_pair_alone() {
    // Nothing to fuse, so nothing may change. Guards against a merge that widens or drops a collector just because
    // it walked past one.
    let (mut dag, _table) = build(&twirled_chain(1)).unwrap();
    let before = (collector_count(&dag), box_count(&dag));
    merge_collectors(&mut dag).unwrap();
    assert_eq!((collector_count(&dag), box_count(&dag)), before);
}

/// The tally of a box holding `count` emissions travelling `outward`, all of which arrive at the collector an escape
/// would fold into.
fn arriving(count: usize, outward: Direction) -> EmissionTally {
    let seen: Vec<Sighting> = (0..count)
        .map(|_| Sighting::Emission(Some(outward)))
        .collect();
    EmissionTally::from_sightings(&seen)
}

#[test]
fn test_an_escape_with_content_to_move_refuses_any_arriving_emission() {
    assert!(!hazards_clear(
        &arriving(1, Direction::Left),
        Direction::Left,
        true
    ));
    assert!(
        hazards_clear(&arriving(1, Direction::Left), Direction::Left, false),
        "an unabsorbed collector moves nothing, so its escape is purely structural"
    );
}

#[test]
fn test_an_escape_refuses_two_arriving_emissions_whatever_moves() {
    for moves_content in [false, true] {
        assert!(!hazards_clear(
            &arriving(2, Direction::Left),
            Direction::Left,
            moves_content
        ));
    }
}

#[test]
fn test_only_the_emissions_that_would_arrive_are_hazards() {
    // Travelling the other way, or resolved in place: neither ends up at the collector being folded into, so neither
    // refuses the escape even with a body to move.
    let elsewhere = EmissionTally::from_sightings(&[
        Sighting::Emission(Some(Direction::Right)),
        Sighting::Emission(Some(Direction::Right)),
        Sighting::Emission(None),
    ]);
    assert!(hazards_clear(&elsewhere, Direction::Left, true));
}

// --- Collectors written by hand -----------------------------------------------------------------

fn collect_over(partition: Partition, synthesizer: SynthesizerType) -> Collect {
    let parts = (0..partition.len())
        .map(|_| CollectPart { synthesizer })
        .collect();
    Collect { partition, parts }
}

/// Append a collector over `qubits`, each qubit a part of its own, with a body of these gates.
fn append_collector(
    out: &mut Circuit,
    qubits: &[usize],
    synthesizer: SynthesizerType,
    gates: &[(StandardGate, usize)],
) {
    let mut body = new_dag_body(qubits.len(), 0, gates.len());
    for (gate, wire) in gates {
        append(&mut body, Operation::Gate(*gate), vec![], &[*wire], &[]);
    }
    let spec = collect_over(Partition::singletons(qubits.len()), synthesizer);
    write_box(out, body, vec![Annotation::Collect(spec)], None, qubits, &[]);
}

/// Each instruction of a circuit, by its name and its qubits.
fn outline(dag: &Circuit) -> Vec<(String, Vec<usize>)> {
    dag.ops
        .iter()
        .map(|inst| {
            let name = if is_collector(inst) {
                "collect".to_string()
            } else {
                inst.op.name().to_string()
            };
            (name, inst.qubits.clone())
        })
        .collect()
}

#[test]
fn fused_collectors_span_their_qubits_and_keep_their_bodies_in_order() {
    let mut dag = new_dag_body(3, 0, 2);
    append_collector(
        &mut dag,
        &[2, 0],
        SynthesizerType::RzSx,
        &[(StandardGate::H, 0), (StandardGate::S, 1)],
    );
    append_collector(
        &mut dag,
        &[0, 1],
        SynthesizerType::RzSx,
        &[(StandardGate::X, 0), (StandardGate::Y, 1)],
    );
    merge_collectors(&mut dag).unwrap();
    assert_eq!(
        outline(&dag),
        vec![("collect".to_string(), vec![0, 1, 2])]
    );
    let fused = &dag.ops[0];
    match &fused.op {
        Operation::Box {
            annotations,
            duration,
        } => {
            assert_eq!(*duration, None);
            assert_eq!(
                annotations,
                &vec![Annotation::Collect(collect_over(
                    Partition::singletons(3),
                    SynthesizerType::RzSx
                ))]
            );
        }
        _ => panic!("expected a box"),
    }
    assert_eq!(
        outline(&fused.blocks[0]),
        vec![
            ("h".to_string(), vec![2]),
            ("s".to_string(), vec![0]),
            ("x".to_string(), vec![0]),
            ("y".to_string(), vec![1]),
        ]
    );
}

#[test]
fn collectors_that_synthesize_differently_stay_apart() {
    let mut dag = new_dag_body(1, 0, 2);
    append_collector(&mut dag, &[0], SynthesizerType::RzSx, &[]);
    append_collector(&mut dag, &[0], SynthesizerType::RzRx, &[]);
    merge_collectors(&mut dag).unwrap();
    assert_eq!(collector_count(&dag), 2);
}

#[test]
fn an_operation_between_them_keeps_collectors_apart() {
    let mut dag = new_dag_body(1, 0, 3);
    append_collector(&mut dag, &[0], SynthesizerType::RzSx, &[]);
    append(&mut dag, Operation::Gate(StandardGate::H), vec![], &[0], &[]);
    append_collector(&mut dag, &[0], SynthesizerType::RzSx, &[]);
    merge_collectors(&mut dag).unwrap();
    assert_eq!(collector_count(&dag), 2);
    assert_eq!(dag.ops.len(), 3);
}

#[test]
fn a_merge_that_would_close_a_cycle_is_refused() {
    let mut dag = new_dag_body(4, 0, 5);
    for qubits in [vec![0], vec![1], vec![1, 2], vec![0, 2, 3], vec![1, 3]] {
        append_collector(&mut dag, &qubits, SynthesizerType::RzSx, &[]);
    }
    assert_eq!(
        merge_collectors(&mut dag),
        Err(SamplexError::MergeWouldCycle)
    );
}

fn emission(direction: Direction) -> Operation {
    Operation::Emit(Emit {
        direction: Some(direction),
        partition: Partition::singletons(1),
        parts: vec![EmitPart {
            dist: DistKey(0),
            draw: 0,
            adjoint: false,
        }],
    })
}

#[test]
fn a_collector_at_the_edge_of_its_box_escapes_to_the_one_outside() {
    // The outer collector covers the wire, so the one inside folds into it and the box keeps only its gate.
    let mut dag = new_dag_body(1, 0, 2);
    append_collector(&mut dag, &[0], SynthesizerType::RzSx, &[(StandardGate::X, 0)]);
    let mut content = new_dag_body(1, 0, 2);
    append_collector(&mut content, &[0], SynthesizerType::RzSx, &[(StandardGate::Z, 0)]);
    append(&mut content, Operation::Gate(StandardGate::H), vec![], &[0], &[]);
    write_box(&mut dag, content, vec![], None, &[0], &[]);
    merge_collectors(&mut dag).unwrap();
    assert_eq!(collector_count(&dag), 1);
    assert_eq!(
        outline(&dag.ops[0].blocks[0]),
        vec![("x".to_string(), vec![0]), ("z".to_string(), vec![0])]
    );
    assert_eq!(
        outline(&dag.ops[1].blocks[0]),
        vec![("h".to_string(), vec![0])]
    );
}

#[test]
fn an_arriving_emission_keeps_a_collector_with_content_in_its_box() {
    let mut dag = new_dag_body(1, 0, 2);
    append_collector(&mut dag, &[0], SynthesizerType::RzSx, &[]);
    let mut content = new_dag_body(1, 0, 2);
    append_collector(&mut content, &[0], SynthesizerType::RzSx, &[(StandardGate::Z, 0)]);
    append(&mut content, emission(Direction::Left), vec![], &[0], &[]);
    write_box(&mut dag, content, vec![], None, &[0], &[]);
    merge_collectors(&mut dag).unwrap();
    assert_eq!(collector_count(&dag), 1);
    assert_eq!(collector_count(&dag.ops[1].blocks[0]), 1);
}

#[test]
fn merging_again_changes_nothing() {
    let (mut dag, _table) = build(&twirled_chain(4)).unwrap();
    merge_collectors(&mut dag).unwrap();
    let once = outline(&dag);
    assert_eq!(collector_count(&dag), 5);
    merge_collectors(&mut dag).unwrap();
    assert_eq!(outline(&dag), once);
}

#[test]
fn groups_that_share_an_element_become_one_part() {
    assert_eq!(
        coarsened(6, &vec![vec![4, 1], vec![2], vec![1, 5]]),
        Partition::new(vec![vec![0], vec![1, 4, 5], vec![2], vec![3]]).unwrap()
    );
    assert_eq!(coarsened(2, &vec![]), Partition::singletons(2));
}

#[test]
fn a_fused_collector_joins_the_parts_that_overlap() {
    let mut dag = new_dag_body(3, 0, 2);
    let joint = collect_over(Partition::whole(2), SynthesizerType::RzSx);
    write_box(
        &mut dag,
        new_dag_body(2, 0, 0),
        vec![Annotation::Collect(joint)],
        None,
        &[2, 1],
        &[],
    );
    append_collector(&mut dag, &[1, 0], SynthesizerType::RzSx, &[]);
    merge_collectors(&mut dag).unwrap();
    assert_eq!(dag.ops.len(), 1);
    assert_eq!(
        dag.ops[0].op,
        collect_op(collect_over(
            Partition::new(vec![vec![0], vec![1, 2]]).unwrap(),
            SynthesizerType::RzSx
        ))
    );
}

#[test]
fn boxes_in_a_row_need_one_layer_more_than_there_are_boxes() {
    for count in 1..6 {
        let (mut dag, _table) = build(&twirled_chain(count)).unwrap();
        assert_eq!(collector_count(&dag), 2 * count);
        let content: Vec<usize> = dag
            .ops
            .iter()
            .filter(|inst| !is_collector(inst))
            .map(|inst| inst.node)
            .collect();
        merge_collectors(&mut dag).unwrap();
        assert_eq!(dag.ops.len(), 2 * count + 1);
        for (k, inst) in dag.ops.iter().enumerate() {
            assert_eq!(is_collector(inst), k % 2 == 0, "layers and boxes alternate");
            assert_eq!(inst.qubits, vec![0]);
        }
        let kept: Vec<usize> = dag
            .ops
            .iter()
            .filter(|inst| !is_collector(inst))
            .map(|inst| inst.node)
            .collect();
        assert_eq!(kept, content, "the boxes stay, in their order");
    }
}

#[test]
fn boxes_in_a_row_that_hold_twirled_boxes_share_their_layers_too() {
    let mut annotated = new_dag_body(1, 0, 3);
    for _ in 0..3 {
        let mut body = new_dag_body(1, 0, 1);
        append(&mut body, Operation::Gate(StandardGate::H), vec![], &[0], &[]);
        let mut outer = new_dag_body(1, 0, 1);
        write_box(&mut outer, body, vec![twirl()], None, &[0], &[]);
        write_box(&mut annotated, outer, vec![twirl()], None, &[0], &[]);
    }
    let (mut dag, _table) = build(&annotated).unwrap();
    assert_eq!(collector_count(&dag), 6);
    assert_eq!(box_count(&dag), 9);
    merge_collectors(&mut dag).unwrap();
    assert_eq!(collector_count(&dag), 4);
    assert_eq!(box_count(&dag), 7);
}
