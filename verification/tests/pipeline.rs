//! The chain as a whole: building an emission circuit, absorbing, merging, lowering, and tidying the graph.

use samplex::annotated_circuit::Annotation;
use samplex::annotated_circuit::ChangeBasisMode;
use samplex::annotated_circuit::ChangeBasisSpec;
use samplex::annotated_circuit::DistributionType;
use samplex::annotated_circuit::Dressing;
use samplex::annotated_circuit::ForeignAnnotation;
use samplex::annotated_circuit::InjectNoiseSpec;
use samplex::annotated_circuit::InjectionSite;
use samplex::annotated_circuit::Placement;
use samplex::annotated_circuit::SynthesizerType;
use samplex::annotated_circuit::TagSpec;
use samplex::annotated_circuit::TwirlSpec;
use samplex::circuit::Circuit;
use samplex::circuit::OpaqueOp;
use samplex::circuit::Operation;
use samplex::distributions::DistKey;
use samplex::distributions::DistributionTable;
use samplex::emission_circuit::Collect;
use samplex::emission_circuit::CollectPart;
use samplex::emission_circuit::Emit;
use samplex::emission_circuit::EmitPart;
use samplex::emission_circuit_navigation::append;
use samplex::emission_circuit_navigation::is_collector;
use samplex::emission_circuit_navigation::new_dag_body;
use samplex::emission_circuit_navigation::write_box;
use samplex::error::LowerError;
use samplex::error::SamplexError;
use samplex::parameters::Param;
use samplex::parameters::ParameterExpression;
use samplex::parameters::Symbol;
use samplex::parameters::Value;
use samplex::partition::Partition;
use samplex::passes::absorb_dressing;
use samplex::passes::build;
use samplex::passes::build_sampling_graph;
use samplex::passes::build_template;
use samplex::passes::lower;
use samplex::passes::merge_collectors;
use samplex::passes::merge_parallel_nodes;
use samplex::passes::prune_unreachable_from_sinks;
use samplex::passes::prune_unreachable_from_sources;
use samplex::passes::set_virtual_types;
use samplex::standard_gate::StandardGate;
use samplex::virtual_flow_graph::AbsorbedParam;
use samplex::virtual_flow_graph::CollectStep;
use samplex::virtual_flow_graph::Direction;
use samplex::virtual_flow_graph::NodeKind;
use samplex::virtual_flow_graph::SamplingGraph;
use samplex::virtual_type::VirtualType;

fn twirl(distribution: DistributionType, dressing: Dressing) -> Annotation {
    Annotation::Twirl(TwirlSpec {
        distribution,
        dressing,
        decomposition: SynthesizerType::RzSx,
    })
}

fn gate(out: &mut Circuit, gate: StandardGate, qubits: &[usize]) {
    append(out, Operation::Gate(gate), vec![], qubits, &[]);
}

fn wrapped(num_qubits: usize, body: Circuit, annotations: Vec<Annotation>) -> Circuit {
    let mut out = new_dag_body(num_qubits, 0, 1);
    let qubits: Vec<usize> = (0..num_qubits).collect();
    write_box(&mut out, body, annotations, None, &qubits, &[]);
    out
}

/// Two qubits: a twirled box of an `h` on the first and a `cx` on both.
fn twirled_pair(dressing: Dressing) -> Circuit {
    let mut body = new_dag_body(2, 0, 2);
    match dressing {
        Dressing::Left => {
            gate(&mut body, StandardGate::H, &[0]);
            gate(&mut body, StandardGate::CX, &[0, 1]);
        }
        Dressing::Right => {
            gate(&mut body, StandardGate::CX, &[0, 1]);
            gate(&mut body, StandardGate::H, &[0]);
        }
    }
    wrapped(
        2,
        body,
        vec![twirl(DistributionType::UniformPauli, dressing)],
    )
}

/// Each instruction of a circuit in a few words, what a box holds in brackets behind it.
fn outline(dag: &Circuit) -> Vec<String> {
    let mut lines = Vec::new();
    for inst in &dag.ops {
        let name = match &inst.op {
            Operation::Emit(emit) => format!("emit {}", emit.direction_word()),
            other if is_collector(inst) => format!("collect {}", other.name()),
            other => other.name().to_string(),
        };
        let mut line = format!("{} {:?}", name, inst.qubits);
        if !inst.blocks.is_empty() {
            line = format!("{} [{}]", line, outline(&inst.blocks[0]).join("; "));
        }
        lines.push(line);
    }
    lines
}

/// How many collectors a circuit has, at any depth.
fn collectors_in(dag: &Circuit) -> usize {
    dag.ops
        .iter()
        .map(|inst| {
            if is_collector(inst) {
                1
            } else {
                inst.blocks.iter().map(collectors_in).sum()
            }
        })
        .sum()
}

fn minted(dag: &Circuit) -> usize {
    let (_template, collectors) = build_template(dag).unwrap();
    collectors
        .iter()
        .map(|collector| collector.param_indices.len())
        .sum()
}

// --- Building -----------------------------------------------------------------------------------

#[test]
fn building_puts_a_collector_on_each_edge_and_the_pair_at_the_dressing() {
    let (dag, table) = build(&twirled_pair(Dressing::Left)).unwrap();
    assert_eq!(
        outline(&dag),
        vec![
            "collect box [0, 1] []",
            "box [0, 1] [h [0]; emit left [0, 1]; emit right [0, 1]; cx [0, 1]]",
            "collect box [0, 1] []",
        ]
    );
    assert_eq!(table.labels(), vec!["UniformPauli"]);
    assert_eq!(table.draw_counts(), &[2]);

    let (dag, _table) = build(&twirled_pair(Dressing::Right)).unwrap();
    assert_eq!(
        outline(&dag),
        vec![
            "collect box [0, 1] []",
            "box [0, 1] [cx [0, 1]; emit left [0, 1]; emit right [0, 1]; h [0]]",
            "collect box [0, 1] []",
        ]
    );
}

#[test]
fn the_halves_of_a_twirl_share_their_draws_and_one_of_them_is_inverted() {
    let (dag, _table) = build(&twirled_pair(Dressing::Left)).unwrap();
    let halves: Vec<&Emit> = dag.ops[1].blocks[0]
        .ops
        .iter()
        .filter_map(|inst| match &inst.op {
            Operation::Emit(emit) => Some(emit),
            _ => None,
        })
        .collect();
    assert_eq!(halves.len(), 2);
    assert_eq!(halves[0].direction, Some(Direction::Left));
    assert_eq!(halves[1].direction, Some(Direction::Right));
    assert_eq!(halves[0].draws(), vec![0, 1]);
    assert_eq!(halves[1].draws(), vec![0, 1]);
    assert_ne!(halves[0].adjoints(), halves[1].adjoints());
}

#[test]
fn two_boxes_draw_apart_from_one_distribution() {
    let mut dag = new_dag_body(1, 0, 2);
    for _ in 0..2 {
        write_box(
            &mut dag,
            new_dag_body(1, 0, 0),
            vec![twirl(DistributionType::UniformPauli, Dressing::Left)],
            None,
            &[0],
            &[],
        );
    }
    let (_built, table) = build(&dag).unwrap();
    assert_eq!(table.len(), 1);
    assert_eq!(table.draw_counts(), &[2]);
}

#[test]
fn every_emission_of_a_box_stands_at_its_depth() {
    let mut body = new_dag_body(2, 0, 2);
    gate(&mut body, StandardGate::S, &[1]);
    gate(&mut body, StandardGate::CX, &[0, 1]);
    let dag = wrapped(
        2,
        body,
        vec![
            Annotation::InjectNoise(InjectNoiseSpec {
                reference: "n0".to_string(),
                modifier: Some("m0".to_string()),
                site: InjectionSite::Before,
            }),
            Annotation::ChangeBasis(ChangeBasisSpec {
                reference: "b0".to_string(),
                placement: Placement::Start,
                mode: ChangeBasisMode::MeasurePauli,
                decomposition: SynthesizerType::RzSx,
            }),
            twirl(DistributionType::UniformPauli, Dressing::Left),
        ],
    );
    let (built, table) = build(&dag).unwrap();
    assert_eq!(
        outline(&built),
        vec![
            "collect box [0, 1] []",
            "emit left [0, 1]",
            "box [0, 1] [s [1]; emit left [0, 1]; emit left [0, 1]; emit right [0, 1]; cx [0, 1]]",
            "collect box [0, 1] []",
        ]
    );
    assert_eq!(
        table.noise_modifiers(&"n0".to_string()),
        Some(vec!["m0".to_string()])
    );
}

#[test]
fn a_box_that_emits_nothing_is_opened_unless_something_is_declared_on_it() {
    let mut body = new_dag_body(2, 0, 1);
    gate(&mut body, StandardGate::CX, &[1, 0]);
    let (built, table) = build(&wrapped(2, body, vec![Annotation::Tag(TagSpec)])).unwrap();
    assert_eq!(outline(&built), vec!["cx [1, 0]"]);
    assert!(table.is_empty());

    let mut body = new_dag_body(2, 0, 1);
    gate(&mut body, StandardGate::CX, &[1, 0]);
    let foreign = Annotation::Foreign(ForeignAnnotation {
        namespace: "someone.else".to_string(),
        handle: 1,
    });
    let (built, _table) = build(&wrapped(2, body, vec![foreign])).unwrap();
    assert_eq!(outline(&built), vec!["box [0, 1] [cx [1, 0]]"]);
}

#[test]
fn control_flow_other_than_a_box_is_refused() {
    let flow = || {
        Operation::ControlFlow(OpaqueOp {
            name: "if_else".to_string(),
            handle: 3,
        })
    };
    let mut dag = new_dag_body(1, 0, 1);
    append(&mut dag, flow(), vec![], &[0], &[]);
    assert_eq!(
        build(&dag).err(),
        Some(SamplexError::UnsupportedControlFlow("if_else".to_string()))
    );

    let mut body = new_dag_body(1, 0, 1);
    append(&mut body, flow(), vec![], &[0], &[]);
    let nested = wrapped(
        1,
        body,
        vec![twirl(DistributionType::UniformPauli, Dressing::Left)],
    );
    assert_eq!(
        build(&nested).err(),
        Some(SamplexError::UnsupportedNestedControlFlow(
            "if_else".to_string()
        ))
    );
}

#[test]
fn a_box_without_a_body_is_refused() {
    let mut dag = wrapped(1, new_dag_body(1, 0, 0), vec![]);
    dag.ops[0].blocks.clear();
    assert_eq!(build(&dag).err(), Some(SamplexError::BoxWithoutBody));
}

#[test]
fn annotations_that_do_not_go_together_are_refused() {
    let dag = wrapped(
        1,
        new_dag_body(1, 0, 0),
        vec![Annotation::InjectNoise(InjectNoiseSpec {
            reference: "n0".to_string(),
            modifier: None,
            site: InjectionSite::After,
        })],
    );
    assert_eq!(
        build(&dag).err(),
        Some(SamplexError::Annotations(
            LowerError::InjectNoiseWithoutTwirl
        ))
    );
}

// --- Absorbing ----------------------------------------------------------------------------------

#[test]
fn absorbing_folds_the_near_half_and_the_easy_gates() {
    let (mut dag, _table) = build(&twirled_pair(Dressing::Left)).unwrap();
    absorb_dressing(&mut dag).unwrap();
    assert_eq!(
        outline(&dag),
        vec![
            "collect box [0, 1] [h [0]; emit local [0, 1]]",
            "box [0, 1] [emit right [0, 1]; cx [0, 1]]",
            "collect box [0, 1] []",
        ]
    );

    let (mut dag, _table) = build(&twirled_pair(Dressing::Right)).unwrap();
    absorb_dressing(&mut dag).unwrap();
    assert_eq!(
        outline(&dag),
        vec![
            "collect box [0, 1] []",
            "box [0, 1] [cx [0, 1]; emit left [0, 1]]",
            "collect box [0, 1] [emit local [0, 1]; h [0]]",
        ]
    );
}

#[test]
fn a_measurement_stops_what_is_behind_it() {
    let mut dag = new_dag_body(1, 1, 3);
    let spec = Collect {
        partition: Partition::singletons(1),
        parts: vec![CollectPart {
            synthesizer: SynthesizerType::RzSx,
        }],
    };
    write_box(
        &mut dag,
        new_dag_body(1, 0, 0),
        vec![Annotation::Collect(spec)],
        None,
        &[0],
        &[],
    );
    append(&mut dag, Operation::Measure, vec![], &[0], &[0]);
    gate(&mut dag, StandardGate::H, &[0]);
    absorb_dressing(&mut dag).unwrap();
    assert_eq!(
        outline(&dag),
        vec!["collect box [0] []", "measure [0]", "h [0]"]
    );
}

// --- The order of the passes --------------------------------------------------------------------

/// Two qubits: a box that changes basis at its end, around a twirled box with noise before its `cx`.
fn nested_boxes() -> Circuit {
    let mut body = new_dag_body(2, 0, 1);
    gate(&mut body, StandardGate::CX, &[0, 1]);
    let inner = wrapped(
        2,
        body,
        vec![
            twirl(DistributionType::UniformPauli, Dressing::Left),
            Annotation::InjectNoise(InjectNoiseSpec {
                reference: "n0".to_string(),
                modifier: None,
                site: InjectionSite::Before,
            }),
        ],
    );
    wrapped(
        2,
        inner,
        vec![Annotation::ChangeBasis(ChangeBasisSpec {
            reference: "b0".to_string(),
            placement: Placement::End,
            mode: ChangeBasisMode::MeasurePauli,
            decomposition: SynthesizerType::RzSx,
        })],
    )
}

#[test]
fn absorbing_before_merging_leaves_fewer_collectors() {
    let (mut dag, _table) = build(&nested_boxes()).unwrap();
    assert_eq!(collectors_in(&dag), 4);
    absorb_dressing(&mut dag).unwrap();
    merge_collectors(&mut dag).unwrap();
    assert_eq!(collectors_in(&dag), 2);
    assert_eq!(minted(&dag), 12);

    let (mut dag, _table) = build(&nested_boxes()).unwrap();
    merge_collectors(&mut dag).unwrap();
    absorb_dressing(&mut dag).unwrap();
    assert_eq!(collectors_in(&dag), 4);
    assert_eq!(minted(&dag), 24);
}

// --- Lowering -----------------------------------------------------------------------------------

#[test]
fn a_template_has_the_gates_of_each_synthesizer_in_place_of_its_collector() {
    let mut body = new_dag_body(1, 0, 1);
    gate(&mut body, StandardGate::X, &[0]);
    let mut spec = TwirlSpec {
        distribution: DistributionType::UniformPauli,
        dressing: Dressing::Left,
        decomposition: SynthesizerType::RzSx,
    };
    spec.decomposition = SynthesizerType::RzRx;
    let (mut dag, _table) = build(&wrapped(1, body, vec![Annotation::Twirl(spec)])).unwrap();
    absorb_dressing(&mut dag).unwrap();
    let (template, collectors) = build_template(&dag).unwrap();
    assert_eq!(
        outline(&template),
        vec![
            "rz [0]",
            "rx [0]",
            "rz [0]",
            "box [0] []",
            "rz [0]",
            "rx [0]",
            "rz [0]",
        ]
    );
    assert_eq!(collectors.len(), 2);
    assert_eq!(collectors[0].param_indices, vec![0, 1, 2]);
    assert_eq!(collectors[1].param_indices, vec![3, 4, 5]);
    assert_eq!(template.ops[1].params, vec![Param::Template(1)]);

    let (mut dag, _table) = build(&twirled_pair(Dressing::Left)).unwrap();
    absorb_dressing(&mut dag).unwrap();
    let (template, collectors) = build_template(&dag).unwrap();
    assert_eq!(
        outline(&template)[..10],
        [
            "rz [0]", "sx [0]", "rz [0]", "sx [0]", "rz [0]", "rz [1]", "sx [1]", "rz [1]",
            "sx [1]", "rz [1]",
        ]
    );
    assert_eq!(outline(&template)[10], "box [0, 1] [cx [0, 1]]");
    assert_eq!(template.ops.len(), 21);
    assert_eq!(collectors[1].param_indices, vec![6, 7, 8, 9, 10, 11]);
}

/// How many nodes of a graph are of each kind: emissions, propagations, collectors.
fn census(graph: &SamplingGraph) -> (usize, usize, usize) {
    let mut counts = (0, 0, 0);
    for index in graph.node_indices() {
        match graph.node(index).kind {
            NodeKind::Emission(_) => counts.0 += 1,
            NodeKind::Propagate(_) => counts.1 += 1,
            NodeKind::Collect(_) => counts.2 += 1,
            _ => {}
        }
    }
    counts
}

#[test]
fn lowering_wires_the_far_half_through_the_hard_gates() {
    let (mut dag, table) = build(&twirled_pair(Dressing::Left)).unwrap();
    absorb_dressing(&mut dag).unwrap();
    let (template, mut graph, parameters) = lower(&dag, &table).unwrap();
    assert_eq!(template.ops.len(), 21);
    assert!(parameters.is_empty());
    assert_eq!(census(&graph), (1, 1, 2));
    assert_eq!(
        graph.edges(),
        vec![(2, 3, "right".to_string()), (3, 1, "right".to_string())]
    );
    match &graph.node(0).kind {
        NodeKind::Collect(collect) => {
            assert_eq!(collect.param_indices, vec![0, 1, 2, 3, 4, 5]);
            assert_eq!(collect.steps.len(), 2);
            assert!(matches!(&collect.steps[0], CollectStep::Gate(absorbed)
                if absorbed.gate == StandardGate::H && absorbed.qubits == vec![0]));
            assert!(matches!(&collect.steps[1], CollectStep::Local(local)
                if local.qubits == vec![0, 1]));
        }
        _ => panic!("expected a collector"),
    }

    set_virtual_types(&mut graph);
    assert!(graph
        .graph
        .edge_weights()
        .all(|edge| edge.virtual_type == Some(VirtualType::Pauli)));
    prune_unreachable_from_sources(&mut graph);
    prune_unreachable_from_sinks(&mut graph);
    merge_parallel_nodes(&mut graph);
    assert_eq!(census(&graph), (1, 1, 2));
}

#[test]
fn lowering_without_absorbing_still_resolves_every_emission() {
    let (dag, table) = build(&twirled_pair(Dressing::Left)).unwrap();
    let (template, collectors) = build_template(&dag).unwrap();
    let (graph, _parameters) = build_sampling_graph(&dag, &table, &collectors).unwrap();
    // The near half crosses the `h` that was not folded in, the far half the `cx`.
    assert_eq!(census(&graph), (2, 2, 2));
    assert_eq!(outline(&template)[10], "box [0, 1] [h [0]; cx [0, 1]]");
}

#[test]
fn parallel_propagations_of_a_lowered_circuit_merge() {
    let mut body = new_dag_body(4, 0, 2);
    gate(&mut body, StandardGate::CX, &[0, 1]);
    gate(&mut body, StandardGate::CX, &[2, 3]);
    let (mut dag, table) = build(&wrapped(
        4,
        body,
        vec![twirl(DistributionType::UniformPauli, Dressing::Left)],
    ))
    .unwrap();
    absorb_dressing(&mut dag).unwrap();
    let (_template, mut graph, _parameters) = lower(&dag, &table).unwrap();
    assert_eq!(census(&graph), (1, 2, 2));
    merge_parallel_nodes(&mut graph);
    assert_eq!(census(&graph), (1, 1, 2));
}

#[test]
fn a_gate_that_leaves_the_group_is_refused() {
    let mut body = new_dag_body(2, 0, 1);
    gate(&mut body, StandardGate::CX, &[0, 1]);
    let (mut dag, table) = build(&wrapped(
        2,
        body,
        vec![twirl(DistributionType::HaarU2, Dressing::Left)],
    ))
    .unwrap();
    absorb_dressing(&mut dag).unwrap();
    assert_eq!(
        lower(&dag, &table).err(),
        Some(SamplexError::NoPropagationRule {
            virtual_type: VirtualType::U2,
            gate: StandardGate::CX,
        })
    );
}

fn stray_emission() -> Circuit {
    let mut dag = new_dag_body(1, 0, 1);
    append(
        &mut dag,
        Operation::Emit(Emit {
            direction: Some(Direction::Right),
            partition: Partition::singletons(1),
            parts: vec![EmitPart {
                dist: DistKey(0),
                draw: 0,
                adjoint: false,
            }],
        }),
        vec![],
        &[0],
        &[],
    );
    dag
}

#[test]
fn an_emission_nothing_collects_is_refused() {
    let (_dag, table) = build(&twirled_pair(Dressing::Left)).unwrap();
    assert_eq!(
        lower(&stray_emission(), &table).err(),
        Some(SamplexError::EmissionWithoutCollector {
            qubits: vec![0],
            direction: Direction::Right,
        })
    );
}

#[test]
fn an_emission_from_outside_the_table_is_refused() {
    assert_eq!(
        lower(&stray_emission(), &DistributionTable::new()).err(),
        Some(SamplexError::MissingTableEntry { dist: DistKey(0) })
    );
}

#[test]
fn a_body_on_what_is_no_box_is_refused() {
    let mut dag = new_dag_body(1, 0, 1);
    gate(&mut dag, StandardGate::H, &[0]);
    dag.ops[0].blocks.push(new_dag_body(1, 0, 0));
    assert_eq!(
        build_template(&dag).err(),
        Some(SamplexError::BodyOnNonBox("h".to_string()))
    );
}

/// One qubit: a collector with one rotation in its body.
fn absorbed_rotation(angle: Param) -> Circuit {
    let mut body = new_dag_body(1, 0, 1);
    append(
        &mut body,
        Operation::Gate(StandardGate::RZ),
        vec![angle],
        &[0],
        &[],
    );
    let spec = Collect {
        partition: Partition::singletons(1),
        parts: vec![CollectPart {
            synthesizer: SynthesizerType::RzSx,
        }],
    };
    wrapped(1, body, vec![Annotation::Collect(spec)])
}

fn angle(dag: &Circuit) -> Result<AbsorbedParam, SamplexError> {
    let (_template, graph, _parameters) = lower(dag, &DistributionTable::new())?;
    match &graph.node(0).kind {
        NodeKind::Collect(collect) => match &collect.steps[0] {
            CollectStep::Gate(absorbed) => Ok(absorbed.params[0]),
            _ => panic!("expected a gate"),
        },
        _ => panic!("expected a collector"),
    }
}

fn constant(value: Value) -> Param {
    Param::Expression(ParameterExpression {
        text: "constant".to_string(),
        symbols: vec![],
        value,
    })
}

#[test]
fn an_absorbed_angle_is_bound_or_named_or_refused() {
    let quarter = 0.25f64.to_bits();
    assert_eq!(
        angle(&absorbed_rotation(Param::Float(quarter))),
        Ok(AbsorbedParam::Bound(quarter))
    );
    assert_eq!(
        angle(&absorbed_rotation(constant(Value::Real(quarter)))),
        Ok(AbsorbedParam::Bound(quarter))
    );
    assert_eq!(
        angle(&absorbed_rotation(constant(Value::Int(2f64.to_bits())))),
        Ok(AbsorbedParam::Bound(2f64.to_bits()))
    );
    assert_eq!(
        angle(&absorbed_rotation(constant(Value::Complex(quarter, quarter)))),
        Err(SamplexError::ComplexAbsorbedAngle(quarter, quarter))
    );
    assert_eq!(
        angle(&absorbed_rotation(constant(Value::Undefined))),
        Err(SamplexError::UndefinedAbsorbedAngle)
    );
    assert_eq!(
        angle(&absorbed_rotation(Param::Obj(9))),
        Err(SamplexError::OpaqueAbsorbedParameter)
    );
    let theta = Symbol {
        fullname: "theta".to_string(),
        uuid: 7,
    };
    let symbolic = absorbed_rotation(Param::Expression(ParameterExpression::from_symbol(theta)));
    assert!(matches!(
        angle(&symbolic),
        Ok(AbsorbedParam::Symbolic(key)) if key.index() == 0
    ));
    let (_template, _graph, parameters) = lower(&symbolic, &DistributionTable::new()).unwrap();
    assert_eq!(parameters.free_parameters(), vec!["theta"]);
}
