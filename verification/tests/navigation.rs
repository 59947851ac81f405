//! Walking a nested emission circuit.

use samplex::annotated_circuit::Annotation;
use samplex::annotated_circuit::DistributionType;
use samplex::annotated_circuit::Dressing;
use samplex::annotated_circuit::ForeignAnnotation;
use samplex::annotated_circuit::SynthesizerType;
use samplex::annotated_circuit::TwirlSpec;
use samplex::circuit::Circuit;
use samplex::circuit::Instruction;
use samplex::circuit::Operation;
use samplex::distributions::DistKey;
use samplex::emission_circuit::Collect;
use samplex::emission_circuit::CollectPart;
use samplex::emission_circuit::Emit;
use samplex::emission_circuit::EmitPart;
use samplex::emission_circuit_navigation::append;
use samplex::emission_circuit_navigation::collect_annotation;
use samplex::emission_circuit_navigation::collect_op;
use samplex::emission_circuit_navigation::collectors;
use samplex::emission_circuit_navigation::is_box;
use samplex::emission_circuit_navigation::is_collector;
use samplex::emission_circuit_navigation::is_emission;
use samplex::emission_circuit_navigation::new_dag_body;
use samplex::emission_circuit_navigation::scope_dag;
use samplex::emission_circuit_navigation::write_box;
use samplex::emission_circuit_navigation::EmissionTally;
use samplex::emission_circuit_navigation::ScopeOrder;
use samplex::emission_circuit_navigation::Sighting;
use samplex::emission_circuit_navigation::Site;
use samplex::emission_circuit_navigation::WireCursor;
use samplex::emission_circuit_navigation::WireSights;
use samplex::error::SamplexError;
use samplex::partition::Partition;
use samplex::standard_gate::StandardGate;
use samplex::virtual_flow_graph::Direction;

fn collect_spec() -> Collect {
    Collect {
        partition: Partition::singletons(1),
        parts: vec![CollectPart {
            synthesizer: SynthesizerType::RzSx,
        }],
    }
}

fn twirl_spec() -> TwirlSpec {
    TwirlSpec {
        distribution: DistributionType::UniformPauli,
        dressing: Dressing::Left,
        decomposition: SynthesizerType::RzSx,
    }
}

fn foreign() -> Annotation {
    Annotation::Foreign(ForeignAnnotation {
        namespace: "someone.else".to_string(),
        handle: 1,
    })
}

fn collect_annotations() -> Vec<Annotation> {
    vec![Annotation::Collect(collect_spec())]
}

fn content_annotations() -> Vec<Annotation> {
    vec![Annotation::Twirl(twirl_spec())]
}

fn instruction(op: Operation, qubits: Vec<usize>) -> Instruction {
    Instruction {
        node: 0,
        op,
        qubits,
        clbits: vec![],
        params: vec![],
        blocks: vec![],
    }
}

/// A one-qubit box carrying exactly these annotations.
fn box_instruction(annotations: Vec<Annotation>) -> Instruction {
    instruction(
        Operation::Box {
            annotations,
            duration: None,
        },
        vec![0],
    )
}

fn emit_spec(direction: Option<Direction>) -> Emit {
    Emit {
        direction,
        partition: Partition::singletons(1),
        parts: vec![EmitPart {
            dist: DistKey(0),
            draw: 0,
            adjoint: false,
        }],
    }
}

fn append_gate(out: &mut Circuit, gate: StandardGate, qubit: usize) {
    append(out, Operation::Gate(gate), vec![], &[qubit], &[]);
}

fn append_emission(out: &mut Circuit, direction: Option<Direction>) {
    append(out, Operation::Emit(emit_spec(direction)), vec![], &[0], &[]);
}

fn gate_site(dag: &Circuit, scope: Vec<usize>, gate: StandardGate) -> Site {
    let node = dag
        .ops
        .iter()
        .find(|inst| inst.op == Operation::Gate(gate))
        .unwrap()
        .node;
    Site { scope, node }
}

fn box_node(dag: &Circuit) -> usize {
    dag.ops.iter().find(|inst| is_box(inst)).unwrap().node
}

fn gate_at(root: &Circuit, site: &Site) -> Option<StandardGate> {
    match &site.instruction(root).unwrap().op {
        Operation::Gate(gate) => Some(*gate),
        _ => None,
    }
}

/// One qubit: `h`, then a content box holding `x` and `y`, then `z`.
fn content_nest() -> Circuit {
    let mut out = new_dag_body(1, 0, 3);
    append_gate(&mut out, StandardGate::H, 0);
    let mut body = new_dag_body(1, 0, 2);
    append_gate(&mut body, StandardGate::X, 0);
    append_gate(&mut body, StandardGate::Y, 0);
    write_box(&mut out, body, content_annotations(), None, &[0], &[]);
    append_gate(&mut out, StandardGate::Z, 0);
    out
}

/// One qubit: `h`, then a collect box holding `x`, then `z`.
fn collector_nest() -> Circuit {
    let mut out = new_dag_body(1, 0, 3);
    append_gate(&mut out, StandardGate::H, 0);
    let mut body = new_dag_body(1, 0, 1);
    append_gate(&mut body, StandardGate::X, 0);
    write_box(&mut out, body, collect_annotations(), None, &[0], &[]);
    append_gate(&mut out, StandardGate::Z, 0);
    out
}

/// Two qubits: `h` and `z` on qubit 0, and between them a two-qubit content box whose body only touches qubit 1.
fn box_missing_a_wire() -> Circuit {
    let mut out = new_dag_body(2, 0, 3);
    append_gate(&mut out, StandardGate::H, 0);
    let mut body = new_dag_body(2, 0, 1);
    append_gate(&mut body, StandardGate::Y, 1);
    write_box(&mut out, body, content_annotations(), None, &[0, 1], &[]);
    append_gate(&mut out, StandardGate::Z, 0);
    out
}

/// One qubit: a collect box with a collector in its body, then a content box with a collector in its body.
fn nested_collectors() -> Circuit {
    let mut out = new_dag_body(1, 0, 2);
    for annotations in [collect_annotations(), content_annotations()] {
        let mut body = new_dag_body(1, 0, 1);
        write_box(
            &mut body,
            new_dag_body(1, 0, 0),
            collect_annotations(),
            None,
            &[0],
            &[],
        );
        write_box(&mut out, body, annotations, None, &[0], &[]);
    }
    out
}

/// One qubit: an emission travelling rightward, then a content box holding an emission travelling leftward and a
/// collect box with a resolved emission in it.
fn emissions_at_depth() -> Circuit {
    let mut out = new_dag_body(1, 0, 2);
    append_emission(&mut out, Some(Direction::Right));
    let mut body = new_dag_body(1, 0, 2);
    append_emission(&mut body, Some(Direction::Left));
    let mut absorbed = new_dag_body(1, 0, 1);
    append_emission(&mut absorbed, None);
    write_box(&mut body, absorbed, collect_annotations(), None, &[0], &[]);
    write_box(&mut out, body, content_annotations(), None, &[0], &[]);
    out
}

fn reads_spec() {
    let inst = box_instruction(vec![Annotation::Collect(collect_spec())]);
    assert_eq!(collect_annotation(&inst), Some(collect_spec()));
    assert!(is_collector(&inst));
    assert!(is_box(&inst));
}

fn rejects_content_box() {
    // A content box is still a box, and it still carries an annotation. What it is not is a collector.
    let inst = box_instruction(vec![Annotation::Twirl(twirl_spec())]);
    assert!(is_box(&inst));
    assert!(!is_collector(&inst));
    assert_eq!(collect_annotation(&inst), None);
}

fn ignores_foreign_annotation() {
    // A stranger's annotation riding along on a collector must not hide the collector, and on its own must not
    // fabricate one.
    let shared = box_instruction(vec![foreign(), Annotation::Collect(collect_spec())]);
    assert_eq!(collect_annotation(&shared), Some(collect_spec()));

    let foreign_only = box_instruction(vec![foreign()]);
    assert!(is_box(&foreign_only));
    assert!(!is_collector(&foreign_only));
}

fn rejects_a_gate() {
    let gate = instruction(Operation::Gate(StandardGate::H), vec![0]);
    assert!(!is_box(&gate));
    assert!(!is_collector(&gate));
    assert_eq!(collect_annotation(&gate), None);
}

fn writes_one_annotation_and_no_duration() {
    // What callers rely on when they replace a collector wholesale: exactly one annotation, no duration, and the
    // width of what it replaces.
    let mut root = new_dag_body(2, 1, 1);
    write_box(
        &mut root,
        new_dag_body(2, 1, 0),
        content_annotations(),
        None,
        &[0, 1],
        &[0],
    );
    let site = Site {
        scope: vec![],
        node: 0,
    };
    site.substitute(&mut root, collect_op(collect_spec()), new_dag_body(2, 1, 0))
        .unwrap();
    let inst = site.instruction(&root).unwrap();
    assert_eq!(inst.qubits.len(), 2);
    assert_eq!(inst.clbits.len(), 1);
    let Operation::Box {
        duration,
        annotations,
    } = &inst.op
    else {
        panic!("collect_op must produce a box");
    };
    assert!(duration.is_none());
    assert_eq!(annotations.len(), 1);
    assert_eq!(annotations[0], Annotation::Collect(collect_spec()));
}

#[test]
fn emission_circuit_navigation_test_collect_annotation_reads_spec() {
    reads_spec();
}

#[test]
fn emission_circuit_navigation_test_is_collector_rejects_content_box() {
    rejects_content_box();
}

#[test]
fn emission_circuit_navigation_test_collect_annotation_ignores_foreign_annotation() {
    ignores_foreign_annotation();
}

#[test]
fn emission_circuit_navigation_test_is_box_rejects_a_gate() {
    rejects_a_gate();
}

#[test]
fn emission_circuit_navigation_test_collect_op_writes_one_annotation_and_no_duration() {
    writes_one_annotation_and_no_duration();
}

#[test]
fn utils_test_collect_annotation_reads_spec() {
    reads_spec();
}

#[test]
fn utils_test_is_collector_rejects_content_box() {
    rejects_content_box();
}

#[test]
fn utils_test_collect_annotation_ignores_foreign_annotation() {
    ignores_foreign_annotation();
}

#[test]
fn utils_test_is_box_rejects_a_gate() {
    rejects_a_gate();
}

#[test]
fn utils_test_collect_op_writes_one_annotation_and_no_duration() {
    writes_one_annotation_and_no_duration();
}

#[test]
fn test_deeper_than_compares_depth_alone() {
    // Two unrelated scopes of equal depth are neither inside the other.
    let root = Site {
        scope: Vec::new(),
        node: 1,
    };
    let nested = Site {
        scope: vec![1],
        node: 2,
    };
    assert!(nested.deeper_than(&root.scope));
    assert!(!root.deeper_than(&root.scope));
    assert!(!root.deeper_than(&nested.scope));
    assert!(!nested.deeper_than(&nested.scope));
}

#[test]
fn test_cursor_descends_into_content_and_climbs_back_out() {
    // Into a content box, along its body, out again, and on to whatever follows the box.
    let root = content_nest();
    let start = gate_site(&root, Vec::new(), StandardGate::H);
    let mut cursor = WireCursor::at(&start, 0);

    let x = cursor.advance(&root, Direction::Right).unwrap().unwrap();
    assert_eq!(gate_at(&root, &x), Some(StandardGate::X));
    assert!(
        x.deeper_than(&start.scope),
        "descended into the content box"
    );

    let y = cursor.advance(&root, Direction::Right).unwrap().unwrap();
    assert_eq!(gate_at(&root, &y), Some(StandardGate::Y));

    let z = cursor.advance(&root, Direction::Right).unwrap().unwrap();
    assert_eq!(gate_at(&root, &z), Some(StandardGate::Z));
    assert!(!z.deeper_than(&start.scope), "climbed back out of it");

    assert!(cursor.advance(&root, Direction::Right).unwrap().is_none());
}

#[test]
fn test_cursor_never_ascends_above_its_base() {
    // A walk started inside a box stops at the end of that body rather than reporting what is outside.
    let root = content_nest();
    let scope = vec![box_node(&root)];
    let body = scope_dag(&root, &scope).unwrap();

    let mut rightward = WireCursor::at(&gate_site(body, scope.clone(), StandardGate::X), 0);
    let y = rightward.advance(&root, Direction::Right).unwrap().unwrap();
    assert_eq!(gate_at(&root, &y), Some(StandardGate::Y));
    assert!(
        rightward
            .advance(&root, Direction::Right)
            .unwrap()
            .is_none(),
        "the z after the box is outside the walk's base"
    );

    let mut leftward = WireCursor::at(&gate_site(body, scope, StandardGate::Y), 0);
    let x = leftward.advance(&root, Direction::Left).unwrap().unwrap();
    assert_eq!(gate_at(&root, &x), Some(StandardGate::X));
    assert!(
        leftward.advance(&root, Direction::Left).unwrap().is_none(),
        "the h before the box is outside it too"
    );
}

#[test]
fn test_cursor_reports_a_collector_rather_than_descending() {
    // A collect box is a barrier: the walk names it and carries on past it.
    let root = collector_nest();
    let start = gate_site(&root, Vec::new(), StandardGate::H);
    let mut cursor = WireCursor::at(&start, 0);

    let collector = cursor.advance(&root, Direction::Right).unwrap().unwrap();
    assert!(collector.collector(&root).unwrap().is_some());
    assert!(!collector.deeper_than(&start.scope));

    let after = cursor.advance(&root, Direction::Right).unwrap().unwrap();
    assert_eq!(gate_at(&root, &after), Some(StandardGate::Z));
}

#[test]
fn test_cursor_passes_through_a_box_missing_this_wire() {
    // A box this wire crosses without meeting anything inside is not a barrier.
    let root = box_missing_a_wire();
    let start = gate_site(&root, Vec::new(), StandardGate::H);
    let mut cursor = WireCursor::at(&start, 0);

    let reached = cursor.advance(&root, Direction::Right).unwrap().unwrap();
    assert_eq!(gate_at(&root, &reached), Some(StandardGate::Z));
    assert!(!reached.deeper_than(&start.scope));
}

#[test]
fn test_peek_leaves_the_cursor_where_it_was() {
    let root = content_nest();
    let cursor = WireCursor::at(&gate_site(&root, Vec::new(), StandardGate::H), 0);
    let (probe, first) = cursor.peek(&root, Direction::Right).unwrap().unwrap();
    let (_, again) = cursor.peek(&root, Direction::Right).unwrap().unwrap();
    assert_eq!(first, again, "peeking twice finds the same site");
    assert_eq!(probe.site(), first, "the probe is the cursor that took it");
}

#[test]
fn test_collectors_sweeps_innermost_scopes_first() {
    let root = nested_collectors();
    let sites = collectors(&root, ScopeOrder::Innermost).unwrap();
    assert_eq!(
        sites.len(),
        2,
        "the collector inside a collector is not swept"
    );
    for site in &sites {
        assert!(site.collector(&root).unwrap().is_some());
    }
    assert_eq!(sites[0].scope.len(), 1, "the one inside the content box");
    assert_eq!(sites[1].scope.len(), 0, "then the one at the root");
}

#[test]
fn test_collectors_sweeps_outermost_scopes_first() {
    let root = nested_collectors();
    let sites = collectors(&root, ScopeOrder::Outermost).unwrap();
    assert_eq!(sites.len(), 2);
    assert_eq!(sites[0].scope.len(), 0, "the root collector comes first");
    assert_eq!(sites[1].scope.len(), 1);
}

#[test]
fn test_qubits_in_rejects_a_base_deeper_than_the_site() {
    // Lifting only ever goes outwards.
    let root = new_dag_body(1, 0, 0);
    let site = Site {
        scope: Vec::new(),
        node: 0,
    };
    assert_eq!(
        site.qubits_in(&root, &[0]),
        Err(SamplexError::LiftIntoDeeperScope)
    );
}

#[test]
fn test_sighting_reads_what_a_rule_asks_about() {
    assert_eq!(
        Sighting::of(&instruction(Operation::Gate(StandardGate::H), vec![0])),
        Sighting::EasyGate
    );
    assert_eq!(
        Sighting::of(&instruction(Operation::Gate(StandardGate::CX), vec![0, 1])),
        Sighting::HardContent,
        "a dressing multiplies in single-qubit gates only"
    );
    assert_eq!(
        Sighting::of(&box_instruction(collect_annotations())),
        Sighting::CollectBox
    );
    assert_eq!(
        Sighting::of(&box_instruction(content_annotations())),
        Sighting::HardContent,
        "a content box is one opaque thing to a wire reading its own scope"
    );
    let emission = |direction| instruction(Operation::Emit(emit_spec(direction)), vec![0]);
    assert!(is_emission(&emission(None)));
    assert_eq!(
        Sighting::of(&emission(Some(Direction::Left))),
        Sighting::Emission(Some(Direction::Left))
    );
    assert_eq!(
        Sighting::of(&emission(None)),
        Sighting::Emission(None),
        "an absorbed emission has resolved in place and travels nowhere"
    );
}

#[test]
fn test_wire_sights_stay_in_their_own_scope() {
    // A box is one sighting, reported and passed over.
    let root = content_nest();
    let start = gate_site(&root, Vec::new(), StandardGate::H);
    let mut sights = WireSights::ahead(&root, start.node, 0, Direction::Right);
    let mut ahead: Vec<Sighting> = Vec::new();
    while let Some(seen) = sights.next() {
        ahead.push(seen);
    }
    assert_eq!(
        ahead,
        vec![Sighting::HardContent, Sighting::EasyGate],
        "the content box, then the z after it, not the x and y inside"
    );
}

#[test]
fn test_emission_tally_here_ignores_a_nested_body() {
    let root = emissions_at_depth();
    let tally = EmissionTally::here(&root);
    assert!(tally.any());
    assert_eq!(tally.towards(Direction::Right), 1);
    assert_eq!(
        tally.towards(Direction::Left),
        0,
        "the nested one is not here"
    );
}

#[test]
fn test_emission_tally_subtree_counts_at_any_depth() {
    let root = emissions_at_depth();
    let tally = EmissionTally::subtree(&root).unwrap();
    assert_eq!(tally.towards(Direction::Right), 1);
    assert_eq!(tally.towards(Direction::Left), 1, "the one inside the box");
    assert_eq!(
        tally,
        EmissionTally::from_sightings(&[
            Sighting::Emission(Some(Direction::Right)),
            Sighting::Emission(Some(Direction::Left)),
            Sighting::Emission(None),
        ]),
        "the resolved one is counted too, and towards nothing"
    );
}

#[test]
fn test_emission_tally_counts_only_emissions() {
    let tally = EmissionTally::from_sightings(&[Sighting::EasyGate, Sighting::CollectBox]);
    assert!(!tally.any());
    assert_eq!(tally.towards(Direction::Left), 0);
}

#[test]
fn a_site_lifts_its_wires_through_the_boxes_around_it() {
    let mut inner = new_dag_body(2, 0, 1);
    append_gate(&mut inner, StandardGate::X, 1);
    let mut root = new_dag_body(3, 0, 1);
    write_box(&mut root, inner, content_annotations(), None, &[2, 0], &[]);
    let site = Site {
        scope: vec![0],
        node: 0,
    };
    assert_eq!(site.qubits(&root).unwrap(), vec![1]);
    assert_eq!(site.qubits_in(&root, &[]).unwrap(), vec![0]);
    assert_eq!(site.qubits_in(&root, &[0]).unwrap(), vec![1]);
    assert_eq!(site.num_clbits(&root).unwrap(), 0);
    assert!(site.body(&root).unwrap().is_none());
}

#[test]
fn rewriting_a_site_leaves_the_others_where_they_are() {
    let mut root = content_nest();
    let scope = vec![box_node(&root)];
    let x = gate_site(scope_dag(&root, &scope).unwrap(), scope.clone(), StandardGate::X);
    let y = gate_site(scope_dag(&root, &scope).unwrap(), scope, StandardGate::Y);
    x.remove(&mut root).unwrap();
    assert_eq!(gate_at(&root, &y), Some(StandardGate::Y));
    assert_eq!(y.scope_dag(&root).unwrap().ops.len(), 1);
}

#[test]
fn paths_that_cannot_be_followed_are_refused() {
    let mut root = new_dag_body(1, 0, 2);
    append(
        &mut root,
        Operation::Box {
            annotations: vec![],
            duration: None,
        },
        vec![],
        &[0],
        &[],
    );
    assert_eq!(
        scope_dag(&root, &[0]),
        Err(SamplexError::ScopeWithoutBody)
    );
    // A box with two circuits has no one body.
    root.ops[0].blocks = vec![new_dag_body(1, 0, 0), new_dag_body(1, 0, 0)];
    assert_eq!(
        scope_dag(&root, &[0]),
        Err(SamplexError::BoxWithoutOneBody)
    );
    let site = Site {
        scope: vec![],
        node: 0,
    };
    assert_eq!(site.body(&root), Err(SamplexError::BoxWithoutOneBody));
    assert!(EmissionTally::subtree(&root).is_err());
    assert!(collectors(&root, ScopeOrder::Outermost).is_err());
}

#[test]
fn a_walk_does_not_descend_into_a_box_without_a_body() {
    let mut root = new_dag_body(1, 0, 2);
    append_gate(&mut root, StandardGate::H, 0);
    append(
        &mut root,
        Operation::Box {
            annotations: vec![],
            duration: None,
        },
        vec![],
        &[0],
        &[],
    );
    let start = gate_site(&root, vec![], StandardGate::H);
    assert_eq!(
        WireCursor::at(&start, 0).advance(&root, Direction::Right),
        Err(SamplexError::DescentIntoBodylessBox)
    );
}
