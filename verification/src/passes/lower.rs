//! Lower: emission circuit to template circuit, sampling graph and parameter table.
//!
//! Each collect box becomes a *synth template*, the parametric fragment whose angles the graph fills in;
//! the absorbed gates in its body fold into those angles rather than reaching the template. `Emit`
//! instructions disappear. Content boxes are kept, since what is left in one after absorption is exactly
//! the content that could not be absorbed, and the annotations and duration they carry are meant for the
//! consumer of the template.
//!
//! **Parameters are minted here and nowhere earlier**, so every pass that changes the number or width of
//! collectors must already have run.
//!
//! Nothing here changes its input. Two readers walk the same emission circuit, one writing the template,
//! one reading the track, and each records the [`Site`] of every collector it sees, so
//! [`build_sampling_graph`] pairs a graph collector with its template parameter range by identity rather
//! than by the order the two walks happened to arrive in.

use vstd::prelude::*;
use vstd::string::*;

use crate::annotated_circuit::SynthesizerType;
use crate::circuit::lemma_blocks_size_one;
use crate::circuit::run_size;
use crate::circuit::wires_below;
use crate::circuit::Circuit;
use crate::circuit::CircuitModel;
use crate::circuit::Instruction;
use crate::circuit::InstructionModel;
use crate::circuit::Operation;
use crate::circuit::OperationModel;
use crate::distributions::DistributionTable;
use crate::emission_circuit::EmitPart;
use crate::emission_circuit_navigation::append;
use crate::emission_circuit_navigation::append_instruction;
use crate::emission_circuit_navigation::block_body;
use crate::emission_circuit_navigation::collect_annotation;
use crate::emission_circuit_navigation::is_box;
use crate::emission_circuit_navigation::is_emission;
use crate::emission_circuit_navigation::new_dag_body;
use crate::emission_circuit_navigation::next_instruction;
use crate::emission_circuit_navigation::placeable;
use crate::emission_circuit_navigation::through;
use crate::emission_circuit_navigation::Site;
use crate::emission_circuit_navigation::SiteModel;
use crate::error::ErrorModel;
use crate::error::SamplexError;
use crate::flat::flat;
use crate::flat::flat_of;
use crate::flat::lemma_flat_push;
use crate::flat::lemma_through_twice;
use crate::flat::own_qubits;
use crate::flat::steps_of;
use crate::flat::Step;
use crate::parameters::expression_slot;
use crate::parameters::lemma_key_gives_back_its_expression;
use crate::parameters::params_model;
use crate::parameters::with_expression;
use crate::parameters::ExpressionModel;
use crate::parameters::Param;
use crate::parameters::ParamKey;
use crate::parameters::ParamModel;
use crate::parameters::ParameterTable;
use crate::parameters::Value;
use crate::order::arrange;
use crate::order::arranged;
use crate::order::ascends;
use crate::order::ascent;
use crate::order::in_order;
use crate::order::lemma_ascent_sorts;
use crate::order::positions;
use crate::partition::clone_list;
use crate::partition::reindexed_parts;
use crate::partition::total;
use crate::standard_gate::StandardGate;
use crate::track;
use crate::track::build_refusal;
use crate::track::built;
use crate::track::collector_sites;
use crate::track::join_reach;
use crate::track::join_refusal;
use crate::track::joined;
use crate::track::minted_sites;
use crate::track::room_for_track;
use crate::track::Collector;
use crate::track::CollectorParams;
use crate::track::FlatCollector;
use crate::track::Item;
use crate::track::ItemModel;
use crate::track::ParamsModel;
use crate::track::SamplingGraphBuilder;
use crate::track::Track;
use crate::track::TrackModel;
use crate::virtual_flow_graph::steps_model;
use crate::virtual_flow_graph::AbsorbedGate;
use crate::virtual_flow_graph::AbsorbedGateModel;
use crate::virtual_flow_graph::AbsorbedParam;
use crate::virtual_flow_graph::CollectStep;
use crate::virtual_flow_graph::CollectStepModel;
use crate::virtual_flow_graph::LocalEmission;
use crate::virtual_flow_graph::LocalEmissionModel;
use crate::virtual_flow_graph::SamplingGraph;

verus! {

/// How many angles a synthesizer needs per qubit; both are three-angle Euler decompositions.
pub const PARAMS_PER_QUBIT: usize = 3;

// --- The template -------------------------------------------------------------------------------

/// A circuit with one more gate at its end, on one qubit.
pub open spec fn gate_on(
    out: CircuitModel,
    gate: StandardGate,
    params: Seq<ParamModel>,
    qubit: usize,
) -> CircuitModel {
    out.with(
        next_instruction(
            out,
            OperationModel::Gate(gate),
            params,
            Seq::empty(),
            seq![qubit],
            Seq::empty(),
        ),
    )
}

/// A circuit with the parametric fragment of one qubit at its end: `rz sx rz sx rz` or `rz rx rz`.
pub open spec fn fragment(
    out: CircuitModel,
    synthesizer: SynthesizerType,
    qubit: usize,
    first: usize,
    second: usize,
    third: usize,
) -> CircuitModel {
    let first = seq![ParamModel::Template(first)];
    let second = seq![ParamModel::Template(second)];
    let third = seq![ParamModel::Template(third)];
    match synthesizer {
        SynthesizerType::RzSx => {
            let out = gate_on(out, StandardGate::RZ, first, qubit);
            let out = gate_on(out, StandardGate::SX, Seq::empty(), qubit);
            let out = gate_on(out, StandardGate::RZ, second, qubit);
            let out = gate_on(out, StandardGate::SX, Seq::empty(), qubit);
            gate_on(out, StandardGate::RZ, third, qubit)
        },
        SynthesizerType::RzRx => {
            let out = gate_on(out, StandardGate::RZ, first, qubit);
            let out = gate_on(out, StandardGate::RX, second, qubit);
            gate_on(out, StandardGate::RZ, third, qubit)
        },
    }
}

/// A circuit with the parametric fragments of the first qubits of a collector at its end, each qubit
/// taking the next three angles.
pub open spec fn fragments(
    out: CircuitModel,
    synthesizer: SynthesizerType,
    qubits: Seq<usize>,
    indices: Seq<usize>,
    count: int,
) -> CircuitModel
    decreases count,
{
    if count <= 0 {
        out
    } else {
        fragment(
            fragments(out, synthesizer, qubits, indices, count - 1),
            synthesizer,
            qubits[count - 1],
            indices[3 * (count - 1)],
            indices[3 * (count - 1) + 1],
            indices[3 * (count - 1) + 2],
        )
    }
}

/// The numbers from one on, this many.
pub open spec fn range(from: nat, count: nat) -> Seq<usize> {
    Seq::new(count, |k: int| (from + k) as usize)
}

/// An instruction's qubits, those of its scope, in ascending order of the circuit qubits they are. `global` maps
/// the scope's qubits to those of the circuit.
pub open spec fn lined_up(inst: InstructionModel, global: Seq<usize>) -> Seq<usize> {
    arranged(inst.qubits, ascent(through(global, inst.qubits)))
}

/// A collector's partition once its qubits are in ascending order. One that is not of the collector's qubits is
/// left as it is.
pub open spec fn lined_up_parts(
    inst: InstructionModel,
    partition: Seq<Seq<usize>>,
    global: Seq<usize>,
) -> Seq<Seq<usize>> {
    if total(partition) == inst.qubits.len() {
        reindexed_parts(partition, ascent(through(global, inst.qubits)))
    } else {
        partition
    }
}

/// A template under way: the circuit so far, the parameters minted so far, and the next index to mint.
#[verifier::ext_equal]
pub struct Writing {
    pub out: CircuitModel,
    pub minted: Seq<ParamsModel>,
    pub next: nat,
}

/// A template once one instruction of a scope is written to it.
///
/// `frame` maps the scope's qubits to those of the circuit written to, `global` to circuit qubits. A
/// collector becomes the fragment its angles drive, qubit by qubit in ascending order of the circuit qubits, an
/// emission is not written, a box is kept and its body
/// rebuilt in the box's own frame, and everything else is copied.
pub open spec fn written_one(
    inst: InstructionModel,
    scope: Seq<usize>,
    frame: Seq<usize>,
    global: Seq<usize>,
    state: Writing,
) -> Result<Writing, ErrorModel>
    decreases inst,
{
    match inst.op.collect() {
        Some(collect) => {
            let synthesizer = collect.parts[0].synthesizer;
            let wires = lined_up(inst, global);
            let indices = range(state.next, inst.qubits.len() * 3);
            Ok(
                Writing {
                    out: fragments(
                        state.out,
                        synthesizer,
                        through(frame, wires),
                        indices,
                        inst.qubits.len() as int,
                    ),
                    minted: state.minted.push(
                        ParamsModel {
                            site: SiteModel { scope, node: inst.node },
                            qubits: through(global, wires),
                            synthesizer,
                            param_indices: indices,
                        },
                    ),
                    next: state.next + inst.qubits.len() * 3,
                },
            )
        },
        None => if inst.op is Emit {
            Ok(state)
        } else if inst.op.is_box() && inst.blocks.len() > 0 {
            if inst.blocks.len() != 1 {
                Err(ErrorModel::BoxWithoutOneBody)
            } else {
                match written(
                    inst.blocks[0].ops,
                    scope.push(inst.node),
                    range(0, inst.qubits.len()),
                    through(global, inst.qubits),
                    Writing {
                        out: CircuitModel::bare(inst.qubits.len(), inst.clbits.len()),
                        minted: state.minted,
                        next: state.next,
                    },
                ) {
                    Err(error) => Err(error),
                    Ok(inner) => Ok(
                        Writing {
                            out: state.out.with(
                                next_instruction(
                                    state.out,
                                    inst.op,
                                    Seq::empty(),
                                    seq![inner.out],
                                    through(frame, inst.qubits),
                                    inst.clbits,
                                ),
                            ),
                            minted: inner.minted,
                            next: inner.next,
                        },
                    ),
                }
            }
        } else if inst.blocks.len() > 0 {
            Err(ErrorModel::BodyOnNonBox(inst.op.name_text()))
        } else {
            Ok(
                Writing {
                    out: state.out.with(
                        next_instruction(
                            state.out,
                            inst.op,
                            inst.params,
                            Seq::empty(),
                            through(frame, inst.qubits),
                            inst.clbits,
                        ),
                    ),
                    ..state
                },
            )
        },
    }
}

/// A template once a run of instructions is written to it, one after another.
pub open spec fn written(
    ops: Seq<InstructionModel>,
    scope: Seq<usize>,
    frame: Seq<usize>,
    global: Seq<usize>,
    state: Writing,
) -> Result<Writing, ErrorModel>
    decreases ops,
{
    if ops.len() == 0 {
        Ok(state)
    } else {
        match written(ops.drop_last(), scope, frame, global, state) {
            Err(error) => Err(error),
            Ok(so_far) => written_one(ops.last(), scope, frame, global, so_far),
        }
    }
}

/// The template of a circuit: what is written of it on its own qubits.
pub open spec fn template_of(circuit: CircuitModel) -> Result<Writing, ErrorModel> {
    let identity = range(0, circuit.num_qubits);
    written(
        circuit.ops,
        Seq::empty(),
        identity,
        identity,
        Writing {
            out: CircuitModel::bare(circuit.num_qubits, circuit.num_clbits),
            minted: Seq::empty(),
            next: 0,
        },
    )
}

/// How many angles a run of instructions takes, those inside boxes counted too.
pub open spec fn angles(ops: Seq<InstructionModel>) -> nat
    decreases ops,
{
    if ops.len() == 0 {
        0
    } else {
        angles(ops.drop_last()) + angles_of(ops.last())
    }
}

/// How many angles one instruction takes.
pub open spec fn angles_of(inst: InstructionModel) -> nat
    decreases inst,
{
    if inst.op.is_collector() {
        inst.qubits.len() * 3
    } else if inst.op.is_box() && inst.blocks.len() == 1 {
        angles(inst.blocks[0].ops)
    } else {
        0
    }
}

/// Whether every collector that is reached names how it is synthesized.
pub open spec fn names_synthesizers(ops: Seq<InstructionModel>) -> bool
    decreases ops,
{
    forall|i: int| 0 <= i < ops.len() ==> names_synthesizer(#[trigger] ops[i])
}

/// Whether one instruction is a collector that names how it is synthesized, or a box of such, or something
/// else.
pub open spec fn names_synthesizer(inst: InstructionModel) -> bool
    decreases inst,
{
    match inst.op.collect() {
        Some(collect) => collect.parts.len() > 0,
        None => inst.op.is_box() && inst.blocks.len() == 1 ==> names_synthesizers(
            inst.blocks[0].ops,
        ),
    }
}

/// Whether every collector that is reached names how it is synthesized, and what it holds is gates and
/// emissions.
pub open spec fn lowerable(ops: Seq<InstructionModel>) -> bool
    decreases ops,
{
    forall|i: int| 0 <= i < ops.len() ==> lowerable_one(#[trigger] ops[i])
}

/// Whether one instruction is a collector of that sort, or a box of such, or something else.
pub open spec fn lowerable_one(inst: InstructionModel) -> bool
    decreases inst,
{
    match inst.op.collect() {
        Some(collect) => collect.parts.len() > 0 && (inst.blocks.len() == 1 ==> holds_steps(
            inst.blocks[0].ops,
        )),
        None => inst.op.is_box() && inst.blocks.len() == 1 ==> lowerable(inst.blocks[0].ops),
    }
}

/// Whether a run of instructions is gates and emissions.
pub open spec fn holds_steps(ops: Seq<InstructionModel>) -> bool {
    forall|i: int| 0 <= i < ops.len() ==> (#[trigger] ops[i]).op is Gate || ops[i].op is Emit
}

/// Where collectors hold gates and emissions only, they name how they are synthesized all the same.
pub(crate) proof fn lemma_lowerable_names_synthesizers(ops: Seq<InstructionModel>)
    requires
        lowerable(ops),
    ensures
        names_synthesizers(ops),
    decreases ops,
{
    assert forall|i: int| 0 <= i < ops.len() implies names_synthesizer(#[trigger] ops[i]) by {
        assert(lowerable_one(ops[i]));
        if !ops[i].op.is_collector() && ops[i].op.is_box() && ops[i].blocks.len() == 1 {
            assert(decreases_to!(ops => ops[i]));
            assert(decreases_to!(ops[i] => ops[i].blocks));
            assert(decreases_to!(ops[i].blocks => ops[i].blocks[0]));
            assert(decreases_to!(ops[i].blocks[0] => ops[i].blocks[0].ops));
            lemma_lowerable_names_synthesizers(ops[i].blocks[0].ops);
        }
    }
}

pub(crate) proof fn lemma_angles_take(ops: Seq<InstructionModel>, k: int)
    requires
        0 <= k <= ops.len(),
    ensures
        angles(ops.take(k)) <= angles(ops),
    decreases ops.len(),
{
    if k < ops.len() {
        assert(ops.drop_last().take(k) =~= ops.take(k));
        lemma_angles_take(ops.drop_last(), k);
    } else {
        assert(ops.take(k) =~= ops);
    }
}

proof fn lemma_written_prefix(
    ops: Seq<InstructionModel>,
    scope: Seq<usize>,
    frame: Seq<usize>,
    global: Seq<usize>,
    state: Writing,
    k: int,
)
    requires
        0 <= k <= ops.len(),
        written(ops.take(k), scope, frame, global, state) is Err,
    ensures
        written(ops, scope, frame, global, state) == written(
            ops.take(k),
            scope,
            frame,
            global,
            state,
        ),
    decreases ops.len() - k,
{
    if k == ops.len() {
        assert(ops.take(k) =~= ops);
    } else {
        assert(ops.take(k + 1).drop_last() =~= ops.take(k));
        lemma_written_prefix(ops, scope, frame, global, state, k + 1);
    }
}

/// Wires read through distinct ones are distinct, and below what those are below.
proof fn lemma_through(frame: Seq<usize>, wires: Seq<usize>, limit: nat)
    requires
        wires_below(frame, limit),
        wires_below(wires, frame.len()),
    ensures
        wires_below(through(frame, wires), limit),
        through(frame, wires).len() == wires.len(),
{
    let read = through(frame, wires);
    assert forall|i: int, j: int| 0 <= i < read.len() && 0 <= j < read.len() && i != j implies read[i]
        != read[j] by {
        assert(wires[i] != wires[j]);
        assert(frame[wires[i] as int] != frame[wires[j] as int]);
    }
    assert forall|k: int| 0 <= k < read.len() implies (#[trigger] read[k]) < limit by {
        assert(wires[k] < frame.len());
        assert(frame[wires[k] as int] < limit);
    }
}

/// Qubits in ascending order are the same qubits.
pub(crate) proof fn lemma_lined_up(inst: InstructionModel, global: Seq<usize>)
    ensures
        lined_up(inst, global).len() == inst.qubits.len(),
        forall|k: int|
            0 <= k < inst.qubits.len() ==> inst.qubits.contains(#[trigger] lined_up(inst, global)[k]),
        through(global, lined_up(inst, global)) == arranged(
            through(global, inst.qubits),
            ascent(through(global, inst.qubits)),
        ),
        inst.qubits.no_duplicates() ==> lined_up(inst, global).no_duplicates(),
{
    let there = through(global, inst.qubits);
    let order = ascent(there);
    let wires = lined_up(inst, global);
    lemma_ascent_sorts(there);
    assert(through(global, wires) =~= arranged(there, order));
    assert forall|k: int| 0 <= k < inst.qubits.len() implies inst.qubits.contains(
        #[trigger] wires[k],
    ) by {
        assert(inst.qubits[order[k]] == wires[k]);
    }
    if inst.qubits.no_duplicates() {
        assert forall|i: int, j: int| 0 <= i < wires.len() && 0 <= j < wires.len() && i != j implies wires[i]
            != wires[j] by {
            assert(order[i] != order[j]);
            assert(inst.qubits[order[i]] != inst.qubits[order[j]]);
        }
    }
}

/// Read wires through others.
fn read_through(frame: &Vec<usize>, wires: &Vec<usize>) -> (read: Vec<usize>)
    requires
        forall|k: int| 0 <= k < wires@.len() ==> (#[trigger] wires@[k]) < frame@.len(),
    ensures
        read@ == through(frame@, wires@),
{
    let mut read: Vec<usize> = Vec::new();
    let mut i: usize = 0;
    while i < wires.len()
        invariant
            i <= wires.len(),
            forall|k: int| 0 <= k < wires@.len() ==> (#[trigger] wires@[k]) < frame@.len(),
            read@ == through(frame@, wires@).take(i as int),
        decreases wires.len() - i,
    {
        assert(wires@[i as int] < frame@.len());
        read.push(frame[wires[i]]);
        assert(read@ =~= through(frame@, wires@).take(i + 1));
        i += 1;
    }
    assert(through(frame@, wires@).take(i as int) =~= through(frame@, wires@));
    read
}

/// The numbers from one on, this many.
fn count_from(from: usize, count: usize) -> (numbers: Vec<usize>)
    requires
        from + count <= usize::MAX,
    ensures
        numbers@ == range(from as nat, count as nat),
{
    let mut numbers: Vec<usize> = Vec::new();
    let mut i: usize = 0;
    while i < count
        invariant
            i <= count,
            from + count <= usize::MAX,
            numbers@ == range(from as nat, count as nat).take(i as int),
        decreases count - i,
    {
        numbers.push(from + i);
        assert(numbers@ =~= range(from as nat, count as nat).take(i + 1));
        i += 1;
    }
    assert(range(from as nat, count as nat).take(i as int) =~= range(from as nat, count as nat));
    numbers
}

/// Append a gate on one qubit, driven by one of the template's angles or by none.
fn push_gate(out: &mut Circuit, gate: StandardGate, angle: Option<usize>, qubit: usize)
    requires
        old(out)@.wf(),
        old(out)@.fresh(),
        gate.width() == 1,
        qubit < old(out)@.num_qubits,
    ensures
        final(out)@ == gate_on(
            old(out)@,
            gate,
            match angle {
                Some(index) => seq![ParamModel::Template(index)],
                None => Seq::empty(),
            },
            qubit,
        ),
        final(out)@.wf(),
        final(out)@.fresh(),
{
    let mut params: Vec<Param> = Vec::new();
    if let Some(index) = angle {
        params.push(Param::Template(index));
        assert(params_model(params@) =~= seq![ParamModel::Template(index)]);
    } else {
        assert(params_model(params@) =~= Seq::<ParamModel>::empty());
    }
    let mut target: Vec<usize> = Vec::new();
    target.push(qubit);
    let bits: Vec<usize> = Vec::new();
    proof {
        assert(target@ =~= seq![qubit]);
        assert(bits@ =~= Seq::<usize>::empty());
        assert(wires_below(target@, out@.num_qubits));
        assert(wires_below(bits@, out@.num_clbits));
    }
    append(out, Operation::Gate(gate), params, target.as_slice(), bits.as_slice());
}

/// Write the parametric fragment for one collector, on each of its qubits.
///
/// `RzSx` is `rz sx rz sx rz` and `RzRx` is `rz rx rz`; both take three angles.
fn write_synth_template(
    out: &mut Circuit,
    synthesizer: SynthesizerType,
    qubits: &Vec<usize>,
    param_indices: &Vec<usize>,
)
    requires
        old(out)@.wf(),
        old(out)@.fresh(),
        forall|k: int| 0 <= k < qubits@.len() ==> (#[trigger] qubits@[k]) < old(out)@.num_qubits,
        param_indices@.len() == qubits@.len() * 3,
    ensures
        final(out)@ == fragments(
            old(out)@,
            synthesizer,
            qubits@,
            param_indices@,
            qubits@.len() as int,
        ),
        final(out)@.wf(),
        final(out)@.fresh(),
        final(out)@.num_qubits == old(out)@.num_qubits,
        final(out)@.num_clbits == old(out)@.num_clbits,
{
    let ghost before = out@;
    let limit: usize = param_indices.len();
    let mut position: usize = 0;
    while position < qubits.len()
        invariant
            position <= qubits.len(),
            limit == param_indices@.len(),
            param_indices@.len() == qubits@.len() * 3,
            forall|k: int| 0 <= k < qubits@.len() ==> (#[trigger] qubits@[k]) < before.num_qubits,
            out@ == fragments(before, synthesizer, qubits@, param_indices@, position as int),
            out@.wf(),
            out@.fresh(),
            out@.num_qubits == before.num_qubits,
            out@.num_clbits == before.num_clbits,
        decreases qubits.len() - position,
    {
        let qubit: usize = qubits[position];
        let first: usize = param_indices[position * PARAMS_PER_QUBIT];
        let second: usize = param_indices[position * PARAMS_PER_QUBIT + 1];
        let third: usize = param_indices[position * PARAMS_PER_QUBIT + 2];
        match synthesizer {
            SynthesizerType::RzSx => {
                push_gate(out, StandardGate::RZ, Some(first), qubit);
                push_gate(out, StandardGate::SX, None, qubit);
                push_gate(out, StandardGate::RZ, Some(second), qubit);
                push_gate(out, StandardGate::SX, None, qubit);
                push_gate(out, StandardGate::RZ, Some(third), qubit);
            },
            SynthesizerType::RzRx => {
                push_gate(out, StandardGate::RZ, Some(first), qubit);
                push_gate(out, StandardGate::RX, Some(second), qubit);
                push_gate(out, StandardGate::RZ, Some(third), qubit);
            },
        }
        position += 1;
    }
}

/// The scope one level down: the path extended by the box node being entered.
///
/// Both readers descend through exactly the same boxes, so the paths they build agree, and hence so do the
/// [`Site`]s they name their collectors by.
fn descend(scope: &Vec<usize>, node: usize) -> (inner: Vec<usize>)
    ensures
        inner@ == scope@.push(node),
{
    let mut inner = clone_list(scope);
    inner.push(node);
    inner
}

/// The body of a box, or `None` if this is not a box or has none.
fn plain_box_body(inst: &Instruction) -> (result: Result<Option<&Circuit>, SamplexError>)
    ensures
        match result {
            Ok(Some(body)) => inst@.op.is_box() && inst@.blocks.len() == 1 && body@ == inst@.blocks[0],
            Ok(None) => !inst@.op.is_box() || inst@.blocks.len() == 0,
            Err(error) => inst@.op.is_box() && inst@.blocks.len() > 1 && error@
                == ErrorModel::BoxWithoutOneBody,
        },
{
    if is_box(inst) {
        block_body(inst)
    } else {
        Ok(None)
    }
}

/// Append an instruction that holds a circuit, on the wires given.
fn append_holding(
    out: &mut Circuit,
    op: Operation,
    body: Circuit,
    qargs: Vec<usize>,
    cargs: Vec<usize>,
)
    requires
        old(out)@.wf(),
        old(out)@.fresh(),
        op@.is_box(),
        wires_below(qargs@, old(out)@.num_qubits),
        wires_below(cargs@, old(out)@.num_clbits),
        body@.wf(),
        body@.num_qubits == qargs@.len(),
        body@.num_clbits == cargs@.len(),
    ensures
        final(out)@ == old(out)@.with(
            next_instruction(old(out)@, op@, Seq::empty(), seq![body@], qargs@, cargs@),
        ),
        final(out)@.wf(),
        final(out)@.fresh(),
{
    let ghost before = out@;
    let ghost inner = body@;
    let mut blocks: Vec<Circuit> = Vec::new();
    blocks.push(body);
    let inst = Instruction {
        node: out.ops.len(),
        op,
        qubits: qargs,
        clbits: cargs,
        params: Vec::new(),
        blocks,
    };
    let ghost said = inst@;
    assert(said.blocks =~= seq![inner]);
    assert(said.params =~= Seq::<ParamModel>::empty());
    out.ops.push(inst);
    assert(out@.ops =~= before.ops.push(said));
    assert(said.wf(before.num_qubits, before.num_clbits));
}

/// Copy an instruction into the template with explicitly remapped qubits.
///
/// Refuses an instruction that holds circuits.
fn copy_with_qargs(inst: &Instruction, out: &mut Circuit, qargs: &Vec<usize>) -> (result: Result<
    (),
    SamplexError,
>)
    requires
        old(out)@.wf(),
        old(out)@.fresh(),
        placeable(old(out)@, inst@.op, qargs@, inst@.clbits),
    ensures
        final(out)@.wf(),
        final(out)@.fresh(),
        match result {
            Ok(_) => inst@.blocks.len() == 0 && final(out)@ == old(out)@.with(
                next_instruction(
                    old(out)@,
                    inst@.op,
                    inst@.params,
                    Seq::empty(),
                    qargs@,
                    inst@.clbits,
                ),
            ),
            Err(error) => inst@.blocks.len() > 0 && final(out)@ == old(out)@ && error@
                == ErrorModel::BodyOnNonBox(inst@.op.name_text()),
        },
{
    if inst.blocks.len() > 0 {
        return Err(SamplexError::BodyOnNonBox(String::from_str(inst.op.name())));
    }
    append_instruction(out, inst, qargs.as_slice(), inst.clbits.as_slice());
    Ok(())
}

/// Write one scope's worth of template content.
///
/// `frame` maps scope-local qubits to those of `out`, which is the enclosing box's body when this scope is
/// nested; `global` maps them to circuit qubits, which is the frame a [`CollectorParams`] is always
/// reported in. At the top level the two coincide. `scope` is the path of box nodes descended through to
/// reach `src`, which is what lets a collector here be named by its [`Site`].
#[verifier::rlimit(40)]
fn write_scope(
    src: &Circuit,
    out: &mut Circuit,
    scope: &Vec<usize>,
    frame: &Vec<usize>,
    global: &Vec<usize>,
    collectors: &mut Vec<CollectorParams>,
    next_param: &mut usize,
) -> (result: Result<(), SamplexError>)
    requires
        src@.wf(),
        names_synthesizers(src@.ops),
        frame@.len() == src@.num_qubits,
        global@.len() == src@.num_qubits,
        wires_below(frame@, old(out)@.num_qubits),
        old(out)@.wf(),
        old(out)@.fresh(),
        old(out)@.num_clbits == src@.num_clbits,
        *old(next_param) + angles(src@.ops) <= usize::MAX,
    ensures
        final(out)@.wf(),
        final(out)@.fresh(),
        final(out)@.num_qubits == old(out)@.num_qubits,
        final(out)@.num_clbits == old(out)@.num_clbits,
        match written(
            src@.ops,
            scope@,
            frame@,
            global@,
            Writing {
                out: old(out)@,
                minted: track::params_model(old(collectors)@),
                next: *old(next_param) as nat,
            },
        ) {
            Ok(said) => result is Ok && final(out)@ == said.out && track::params_model(
                final(collectors)@,
            ) == said.minted && *final(next_param) == said.next && said.next == *old(next_param)
                + angles(src@.ops),
            Err(error) => result matches Err(reported) && reported@ == error,
        },
    decreases src@,
{
    let ghost ops = src@.ops;
    let ghost start = Writing {
        out: out@,
        minted: track::params_model(collectors@),
        next: *next_param as nat,
    };
    let mut i: usize = 0;
    while i < src.ops.len()
        invariant
            i <= src.ops.len(),
            ops == src@.ops,
            src@.wf(),
            names_synthesizers(ops),
            frame@.len() == src@.num_qubits,
            global@.len() == src@.num_qubits,
            out@.num_qubits == start.out.num_qubits,
            out@.num_clbits == start.out.num_clbits,
            start.out.num_clbits == src@.num_clbits,
            wires_below(frame@, out@.num_qubits),
            out@.wf(),
            out@.fresh(),
            start.next + angles(ops) <= usize::MAX,
            *next_param == start.next + angles(ops.take(i as int)),
            written(ops.take(i as int), scope@, frame@, global@, start) matches Ok(said) && said.out
                == out@ && said.minted == track::params_model(collectors@) && said.next
                == *next_param,
            start == (Writing {
                out: old(out)@,
                minted: track::params_model(old(collectors)@),
                next: *old(next_param) as nat,
            }),
        decreases src.ops.len() - i,
    {
        let ghost front = ops.take(i as int);
        let ghost upto = ops.take(i + 1);
        let ghost state = Writing {
            out: out@,
            minted: track::params_model(collectors@),
            next: *next_param as nat,
        };
        let inst = &src.ops[i];
        proof {
            assert(upto.drop_last() =~= front);
            assert(upto.last() == inst@);
            assert(ops[i as int] == inst@);
            assert(names_synthesizer(ops[i as int]));
            assert(ops[i as int].wf(src@.num_qubits, src@.num_clbits));
            lemma_angles_take(ops, i + 1);
            assert(angles(upto) == angles(front) + angles_of(inst@));
            lemma_through(frame@, inst@.qubits, out@.num_qubits);
            assert(written(upto, scope@, frame@, global@, start) == written_one(
                inst@,
                scope@,
                frame@,
                global@,
                state,
            ));
            assert forall|k: int| 0 <= k < inst@.qubits.len() implies (#[trigger] inst@.qubits[k])
                < frame@.len() by {}
        }
        // A collector becomes the parametric fragment its angles drive.
        if let Some(collector) = collect_annotation(inst) {
            let order = in_order(&read_through(global, &inst.qubits));
            proof {
                assert forall|k: int| 0 <= k < order@.len() implies (#[trigger] order@[k])
                    < inst@.qubits.len() by {
                    assert(positions(order@)[k] == order@[k]);
                }
            }
            let wires = arrange(&inst.qubits, &order);
            proof {
                lemma_lined_up(inst@, global@);
                assert(wires@ == lined_up(inst@, global@));
                assert forall|k: int| 0 <= k < wires@.len() implies (#[trigger] wires@[k])
                    < frame@.len() by {
                    assert(inst@.qubits.contains(wires@[k]));
                }
                lemma_through(frame@, wires@, out@.num_qubits);
            }
            let targets = read_through(frame, &wires);
            let qubits = read_through(global, &wires);
            assert(angles_of(inst@) == inst@.qubits.len() * 3);
            let count: usize = qubits.len() * PARAMS_PER_QUBIT;
            let param_indices = count_from(*next_param, count);
            *next_param = *next_param + count;
            write_synth_template(out, collector.synthesizer(), &targets, &param_indices);
            let ghost before = collectors@;
            let entry = CollectorParams {
                site: Site { scope: clone_list(scope), node: inst.node },
                qubits,
                synthesizer: collector.synthesizer(),
                param_indices,
            };
            let ghost said = entry@;
            collectors.push(entry);
            assert(track::params_model(collectors@) =~= track::params_model(before).push(said));
        } else if is_emission(inst) {
            // Emissions are markers for the sampling graph; they are not executable.
            assert(angles_of(inst@) == 0);
        } else {
            let body = match plain_box_body(inst) {
                Ok(body) => body,
                Err(error) => {
                    proof {
                        lemma_written_prefix(ops, scope@, frame@, global@, start, i + 1);
                    }
                    return Err(error);
                },
            };
            let qargs = read_through(frame, &inst.qubits);
            match body {
                // A content box is kept, not flattened: its annotations and duration are the point of it,
                // and after absorption its body holds exactly what could not be absorbed. Recursing writes
                // its body in the box's own frame, nested collectors counted in.
                Some(body) => {
                    let width: usize = inst.qubits.len();
                    let inner_global = read_through(global, &inst.qubits);
                    let inner_frame = count_from(0, width);
                    let mut inner_out = new_dag_body(width, inst.clbits.len(), body.ops.len());
                    let inner_scope = descend(scope, inst.node);
                    proof {
                        assert(wires_below(inner_frame@, inner_out@.num_qubits)) by {
                            assert(inner_frame@ == range(0, width as nat));
                        }
                        assert(inst@.blocks[0].wf());
                        assert(decreases_to!(src@ => src@.ops));
                        assert(decreases_to!(src@.ops => src@.ops[i as int]));
                        assert(decreases_to!(src@.ops[i as int] => src@.ops[i as int].blocks));
                        assert(decreases_to!(src@.ops[i as int].blocks => src@.ops[i as int].blocks[0]));
                        assert(angles_of(inst@) == angles(inst@.blocks[0].ops));
                    }
                    match write_scope(
                        body,
                        &mut inner_out,
                        &inner_scope,
                        &inner_frame,
                        &inner_global,
                        collectors,
                        next_param,
                    ) {
                        Ok(_) => {},
                        Err(error) => {
                            proof {
                                lemma_written_prefix(ops, scope@, frame@, global@, start, i + 1);
                            }
                            return Err(error);
                        },
                    }
                    // The operation carries the box's annotations and duration; only its body is rebuilt.
                    append_holding(out, inst.op.clone(), inner_out, qargs, clone_list(&inst.clbits));
                },
                // Everything else is real content, remapped into the template's frame.
                None => {
                    assert(angles_of(inst@) == 0);
                    match copy_with_qargs(inst, out, &qargs) {
                        Ok(_) => {},
                        Err(error) => {
                            proof {
                                lemma_written_prefix(ops, scope@, frame@, global@, start, i + 1);
                            }
                            return Err(error);
                        },
                    }
                },
            }
        }
        i += 1;
    }
    assert(ops.take(i as int) =~= ops);
    Ok(())
}

/// Build the template circuit for an emission circuit.
///
/// Returns the template plus one [`CollectorParams`] per collector, each naming the collect box it came
/// from. The order is circuit order, but nothing downstream depends on that: the site is what identifies a
/// range.
pub fn build_template(dag: &Circuit) -> (result: Result<
    (Circuit, Vec<CollectorParams>),
    SamplexError,
>)
    requires
        dag@.wf(),
        names_synthesizers(dag@.ops),
        angles(dag@.ops) <= usize::MAX,
    ensures
        match template_of(dag@) {
            Ok(said) => result matches Ok((template, collectors)) && template@ == said.out
                && template@.wf() && track::params_model(collectors@) == said.minted,
            Err(error) => result matches Err(reported) && reported@ == error,
        },
{
    let mut out = new_dag_body(dag.num_qubits, dag.num_clbits, dag.ops.len());
    let mut collectors: Vec<CollectorParams> = Vec::new();
    let mut next_param: usize = 0;
    // The identity frame: at the top level a scope-local qubit is already a circuit qubit, and the output
    // frame and the global frame coincide.
    let identity = count_from(0, dag.num_qubits);
    let scope: Vec<usize> = Vec::new();
    proof {
        assert(scope@ =~= Seq::<usize>::empty());
        assert(track::params_model(collectors@) =~= Seq::<ParamsModel>::empty());
        assert(wires_below(identity@, out@.num_qubits)) by {
            assert(identity@ == range(0, dag@.num_qubits));
        }
    }
    match write_scope(
        dag,
        &mut out,
        &scope,
        &identity,
        &identity,
        &mut collectors,
        &mut next_param,
    ) {
        Ok(_) => Ok((out, collectors)),
        Err(error) => Err(error),
    }
}

// --- The track ----------------------------------------------------------------------------------

/// A reading under way: the track so far, and the symbolic angles met so far.
#[verifier::ext_equal]
pub struct Reading {
    pub track: TrackModel,
    pub angles: Seq<ExpressionModel>,
}

/// One absorbed angle, and the symbolic angles met once it is. A bound expression folds to its number; what
/// is not an angle is refused, and so is one of a template's own open angles.
pub open spec fn read_angle(param: ParamModel, met: Seq<ExpressionModel>) -> Result<
    (AbsorbedParam, Seq<ExpressionModel>),
    ErrorModel,
> {
    match param {
        ParamModel::Float(bits) => Ok((AbsorbedParam::Bound(bits), met)),
        ParamModel::Expression(expression) => if expression.symbols.len() == 0 {
            match expression.value {
                Value::Real(bits) => Ok((AbsorbedParam::Bound(bits), met)),
                Value::Int(bits) => Ok((AbsorbedParam::Bound(bits), met)),
                Value::Complex(re, im) => Err(ErrorModel::ComplexAbsorbedAngle(re, im)),
                Value::Undefined => Err(ErrorModel::UndefinedAbsorbedAngle),
            }
        } else {
            Ok(
                (
                    AbsorbedParam::Symbolic(ParamKey(expression_slot(met, expression) as u32)),
                    with_expression(met, expression),
                ),
            )
        },
        ParamModel::Template(_) => Err(ErrorModel::OpaqueAbsorbedParameter),
        ParamModel::Obj(_) => Err(ErrorModel::OpaqueAbsorbedParameter),
    }
}

/// The absorbed angles of a gate, one after another, and the symbolic angles met once they are.
pub open spec fn read_angles(params: Seq<ParamModel>, met: Seq<ExpressionModel>) -> Result<
    (Seq<AbsorbedParam>, Seq<ExpressionModel>),
    ErrorModel,
>
    decreases params.len(),
{
    if params.len() == 0 {
        Ok((Seq::empty(), met))
    } else {
        match read_angles(params.drop_last(), met) {
            Err(error) => Err(error),
            Ok((angles, met)) => match read_angle(params.last(), met) {
                Err(error) => Err(error),
                Ok((angle, met)) => Ok((angles.push(angle), met)),
            },
        }
    }
}

/// What a collector composes, read out of its body, and the symbolic angles met once it is.
pub open spec fn read_steps(
    ops: Seq<InstructionModel>,
    qubits: Seq<usize>,
    met: Seq<ExpressionModel>,
) -> Result<(Seq<CollectStepModel>, Seq<ExpressionModel>), ErrorModel>
    decreases ops.len(),
{
    if ops.len() == 0 {
        Ok((Seq::empty(), met))
    } else {
        match read_steps(ops.drop_last(), qubits, met) {
            Err(error) => Err(error),
            Ok((steps, met)) => match ops.last().op {
                OperationModel::Gate(gate) => match read_angles(ops.last().params, met) {
                    Err(error) => Err(error),
                    Ok((params, met)) => Ok(
                        (
                            steps.push(
                                CollectStepModel::Gate(
                                    AbsorbedGateModel {
                                        gate,
                                        qubits: through(qubits, ops.last().qubits),
                                        params,
                                    },
                                ),
                            ),
                            met,
                        ),
                    ),
                },
                OperationModel::Emit(emit) => Ok(
                    (
                        steps.push(
                            CollectStepModel::Local(
                                LocalEmissionModel {
                                    qubits: through(qubits, ops.last().qubits),
                                    partition: emit.partition,
                                    parts: emit.parts,
                                },
                            ),
                        ),
                        met,
                    ),
                ),
                _ => Ok((steps, met)),
            },
        }
    }
}

/// A reading once one instruction of a scope is read: a collector becomes one position carrying what it
/// composes, its qubits in ascending order, an emission stands where it stood, any other box is dissolved.
pub open spec fn flattened_one(
    inst: InstructionModel,
    scope: Seq<usize>,
    frame: Seq<usize>,
    state: Reading,
) -> Result<Reading, ErrorModel>
    decreases inst,
{
    let qubits = through(frame, inst.qubits);
    match inst.op.collect() {
        Some(collect) => if inst.blocks.len() > 1 {
            Err(ErrorModel::BoxWithoutOneBody)
        } else {
            match read_steps(
                if inst.blocks.len() == 1 {
                    inst.blocks[0].ops
                } else {
                    Seq::empty()
                },
                qubits,
                state.angles,
            ) {
                Err(error) => Err(error),
                Ok((steps, met)) => Ok(
                    Reading {
                        track: TrackModel {
                            items: state.track.items.push(
                                ItemModel::Collector(state.track.collectors.len() as usize),
                            ),
                            collectors: state.track.collectors.push(
                                FlatCollector {
                                    site: SiteModel { scope, node: inst.node },
                                    qubits: through(frame, lined_up(inst, frame)),
                                    partition: lined_up_parts(inst, collect.partition, frame),
                                    synthesizer: collect.parts[0].synthesizer,
                                    param_indices: Seq::empty(),
                                    steps,
                                },
                            ),
                        },
                        angles: met,
                    },
                ),
            }
        },
        None => if inst.op.is_box() && inst.blocks.len() > 0 {
            if inst.blocks.len() != 1 {
                Err(ErrorModel::BoxWithoutOneBody)
            } else {
                flattened(inst.blocks[0].ops, scope.push(inst.node), qubits, state)
            }
        } else {
            Ok(
                Reading {
                    track: TrackModel {
                        items: state.track.items.push(flat_item(inst, qubits)),
                        collectors: state.track.collectors,
                    },
                    angles: state.angles,
                },
            )
        },
    }
}

/// What an instruction that is no box with a body becomes on the track.
pub open spec fn flat_item(inst: InstructionModel, qubits: Seq<usize>) -> ItemModel {
    match inst.op {
        OperationModel::Emit(emit) => ItemModel::Emission(emit, qubits),
        OperationModel::Gate(gate) => ItemModel::Gate(gate, qubits),
        OperationModel::Measure => ItemModel::Measure(qubits, inst.clbits),
        OperationModel::Reset => ItemModel::Reset(qubits),
        _ => ItemModel::Opaque,
    }
}

/// A reading once a run of instructions is read, one after another.
pub open spec fn flattened(
    ops: Seq<InstructionModel>,
    scope: Seq<usize>,
    frame: Seq<usize>,
    state: Reading,
) -> Result<Reading, ErrorModel>
    decreases ops,
{
    if ops.len() == 0 {
        Ok(state)
    } else {
        match flattened(ops.drop_last(), scope, frame, state) {
            Err(error) => Err(error),
            Ok(so_far) => flattened_one(ops.last(), scope, frame, so_far),
        }
    }
}

/// The track of a circuit: what is read of it on its own qubits, with the symbolic angles met.
pub open spec fn reading_of(circuit: CircuitModel) -> Result<Reading, ErrorModel> {
    flattened(
        circuit.ops,
        Seq::empty(),
        range(0, circuit.num_qubits),
        Reading {
            track: TrackModel { items: Seq::empty(), collectors: Seq::empty() },
            angles: Seq::empty(),
        },
    )
}

/// How many parameters the gates of a run have, together.
pub open spec fn param_count(ops: Seq<InstructionModel>) -> nat
    decreases ops.len(),
{
    if ops.len() == 0 {
        0
    } else {
        param_count(ops.drop_last()) + ops.last().params.len()
    }
}

/// How many absorbed angles the collectors of a run hold, those inside boxes counted too.
pub open spec fn absorbed(ops: Seq<InstructionModel>) -> nat
    decreases ops,
{
    if ops.len() == 0 {
        0
    } else {
        absorbed(ops.drop_last()) + absorbed_in(ops.last())
    }
}

/// How many absorbed angles one instruction holds.
pub open spec fn absorbed_in(inst: InstructionModel) -> nat
    decreases inst,
{
    if inst.op.is_collector() {
        if inst.blocks.len() == 1 {
            param_count(inst.blocks[0].ops)
        } else {
            0
        }
    } else if inst.op.is_box() && inst.blocks.len() == 1 {
        absorbed(inst.blocks[0].ops)
    } else {
        0
    }
}

proof fn lemma_absorbed_take(ops: Seq<InstructionModel>, k: int)
    requires
        0 <= k <= ops.len(),
    ensures
        absorbed(ops.take(k)) <= absorbed(ops),
    decreases ops.len(),
{
    if k < ops.len() {
        assert(ops.drop_last().take(k) =~= ops.take(k));
        lemma_absorbed_take(ops.drop_last(), k);
    } else {
        assert(ops.take(k) =~= ops);
    }
}

proof fn lemma_param_count_take(ops: Seq<InstructionModel>, k: int)
    requires
        0 <= k <= ops.len(),
    ensures
        param_count(ops.take(k)) <= param_count(ops),
    decreases ops.len(),
{
    if k < ops.len() {
        assert(ops.drop_last().take(k) =~= ops.take(k));
        lemma_param_count_take(ops.drop_last(), k);
    } else {
        assert(ops.take(k) =~= ops);
    }
}

proof fn lemma_flattened_prefix(
    ops: Seq<InstructionModel>,
    scope: Seq<usize>,
    frame: Seq<usize>,
    state: Reading,
    k: int,
)
    requires
        0 <= k <= ops.len(),
        flattened(ops.take(k), scope, frame, state) is Err,
    ensures
        flattened(ops, scope, frame, state) == flattened(ops.take(k), scope, frame, state),
    decreases ops.len() - k,
{
    if k == ops.len() {
        assert(ops.take(k) =~= ops);
    } else {
        assert(ops.take(k + 1).drop_last() =~= ops.take(k));
        lemma_flattened_prefix(ops, scope, frame, state, k + 1);
    }
}

proof fn lemma_read_angles_prefix(params: Seq<ParamModel>, met: Seq<ExpressionModel>, k: int)
    requires
        0 <= k <= params.len(),
        read_angles(params.take(k), met) is Err,
    ensures
        read_angles(params, met) == read_angles(params.take(k), met),
    decreases params.len() - k,
{
    if k == params.len() {
        assert(params.take(k) =~= params);
    } else {
        assert(params.take(k + 1).drop_last() =~= params.take(k));
        lemma_read_angles_prefix(params, met, k + 1);
    }
}

proof fn lemma_read_steps_prefix(
    ops: Seq<InstructionModel>,
    qubits: Seq<usize>,
    met: Seq<ExpressionModel>,
    k: int,
)
    requires
        0 <= k <= ops.len(),
        read_steps(ops.take(k), qubits, met) is Err,
    ensures
        read_steps(ops, qubits, met) == read_steps(ops.take(k), qubits, met),
    decreases ops.len() - k,
{
    if k == ops.len() {
        assert(ops.take(k) =~= ops);
    } else {
        assert(ops.take(k + 1).drop_last() =~= ops.take(k));
        lemma_read_steps_prefix(ops, qubits, met, k + 1);
    }
}

/// Read one absorbed gate parameter, interning it only if it is genuinely symbolic.
///
/// A fully bound expression folds to [`AbsorbedParam::Bound`]. Reported rather than silently projected onto
/// the real axis: a complex angle is not something a rotation can be given, so it means the circuit was
/// already wrong.
fn absorbed_param(table: &mut ParameterTable, param: &Param) -> (result: Result<
    AbsorbedParam,
    SamplexError,
>)
    requires
        old(table).wf(),
        old(table)@.len() < u32::MAX,
    ensures
        final(table).wf(),
        match read_angle(param@, old(table)@) {
            Ok((said, met)) => result == Ok::<AbsorbedParam, SamplexError>(said) && final(table)@ == met,
            Err(error) => result matches Err(reported) && reported@ == error,
        },
        final(table)@.len() <= old(table)@.len() + 1,
{
    match param {
        Param::Float(bits) => Ok(AbsorbedParam::Bound(*bits)),
        Param::Expression(expression) => {
            if expression.num_symbols() == 0 {
                match expression.value {
                    Value::Real(bits) => Ok(AbsorbedParam::Bound(bits)),
                    Value::Int(bits) => Ok(AbsorbedParam::Bound(bits)),
                    Value::Complex(re, im) => Err(SamplexError::ComplexAbsorbedAngle(re, im)),
                    Value::Undefined => Err(SamplexError::UndefinedAbsorbedAngle),
                }
            } else {
                Ok(AbsorbedParam::Symbolic(table.intern(expression.clone())))
            }
        },
        Param::Template(_) => Err(SamplexError::OpaqueAbsorbedParameter),
        Param::Obj(_) => Err(SamplexError::OpaqueAbsorbedParameter),
    }
}

/// Read the parameters of an absorbed gate.
fn absorbed_params(table: &mut ParameterTable, params: &Vec<Param>) -> (result: Result<
    Vec<AbsorbedParam>,
    SamplexError,
>)
    requires
        old(table).wf(),
        old(table)@.len() + params@.len() <= u32::MAX,
    ensures
        final(table).wf(),
        match read_angles(params_model(params@), old(table)@) {
            Ok((said, met)) => result matches Ok(angles) && angles@ == said && final(table)@ == met,
            Err(error) => result matches Err(reported) && reported@ == error,
        },
        final(table)@.len() <= old(table)@.len() + params@.len(),
{
    let ghost given = table@;
    let ghost model = params_model(params@);
    let mut angles: Vec<AbsorbedParam> = Vec::new();
    assert(model.take(0) =~= Seq::<ParamModel>::empty());
    let mut i: usize = 0;
    while i < params.len()
        invariant
            i <= params.len(),
            model == params_model(params@),
            given == old(table)@,
            table.wf(),
            given.len() + params@.len() <= u32::MAX,
            table@.len() <= given.len() + i,
            read_angles(model.take(i as int), given) == Ok::<
                (Seq<AbsorbedParam>, Seq<ExpressionModel>),
                ErrorModel,
            >((angles@, table@)),
        decreases params.len() - i,
    {
        proof {
            assert(model.take(i + 1).drop_last() =~= model.take(i as int));
            assert(model.take(i + 1).last() == params@[i as int]@);
        }
        match absorbed_param(table, &params[i]) {
            Ok(angle) => {
                angles.push(angle);
            },
            Err(error) => {
                proof {
                    lemma_read_angles_prefix(model, given, i + 1);
                }
                return Err(error);
            },
        }
        i += 1;
    }
    assert(model.take(i as int) =~= model);
    Ok(angles)
}

/// Read what a collector composes out of its body.
///
/// This read yields *a* linear extension of the body, not the order the absorption walk appended in.
/// Harmless, as a local emission spans every qubit it covers, so it stays a barrier, but it must not be
/// reported as circuit order.
fn collector_steps(body: &Circuit, qubits: &Vec<usize>, parameters: &mut ParameterTable) -> (result:
    Result<Vec<CollectStep>, SamplexError>)
    requires
        body@.wf(),
        holds_steps(body@.ops),
        body@.num_qubits == qubits@.len(),
        old(parameters).wf(),
        old(parameters)@.len() + param_count(body@.ops) <= u32::MAX,
    ensures
        final(parameters).wf(),
        match read_steps(body@.ops, qubits@, old(parameters)@) {
            Ok((said, met)) => result matches Ok(steps) && steps_model(steps@) == said
                && final(parameters)@ == met,
            Err(error) => result matches Err(reported) && reported@ == error,
        },
        final(parameters)@.len() <= old(parameters)@.len() + param_count(body@.ops),
{
    let ghost given = parameters@;
    let ghost ops = body@.ops;
    let mut steps: Vec<CollectStep> = Vec::new();
    assert(steps_model(steps@) =~= Seq::<CollectStepModel>::empty());
    let mut i: usize = 0;
    while i < body.ops.len()
        invariant
            i <= body.ops.len(),
            ops == body@.ops,
            body@.wf(),
            holds_steps(ops),
            body@.num_qubits == qubits@.len(),
            given == old(parameters)@,
            parameters.wf(),
            given.len() + param_count(ops) <= u32::MAX,
            parameters@.len() <= given.len() + param_count(ops.take(i as int)),
            read_steps(ops.take(i as int), qubits@, given) == Ok::<
                (Seq<CollectStepModel>, Seq<ExpressionModel>),
                ErrorModel,
            >((steps_model(steps@), parameters@)),
        decreases body.ops.len() - i,
    {
        let ghost upto = ops.take(i + 1);
        let inst = &body.ops[i];
        let ghost before = steps_model(steps@);
        proof {
            assert(upto.drop_last() =~= ops.take(i as int));
            assert(upto.last() == inst@);
            assert(ops[i as int] == inst@);
            assert(ops[i as int].op is Gate || ops[i as int].op is Emit);
            assert(ops[i as int].wf(body@.num_qubits, body@.num_clbits));
            lemma_param_count_take(ops, i + 1);
            assert forall|k: int| 0 <= k < inst@.qubits.len() implies (#[trigger] inst@.qubits[k])
                < qubits@.len() by {}
        }
        let on = read_through(qubits, &inst.qubits);
        match &inst.op {
            Operation::Gate(gate) => {
                // The angles have to come along: this is the only place they are read, and the
                // collector's body does not reach the template.
                let params = match absorbed_params(parameters, &inst.params) {
                    Ok(params) => params,
                    Err(error) => {
                        proof {
                            lemma_read_steps_prefix(ops, qubits@, given, i + 1);
                            lemma_param_count_take(ops, i + 1);
                        }
                        return Err(error);
                    },
                };
                let step = CollectStep::Gate(AbsorbedGate { gate: *gate, qubits: on, params });
                let ghost said = step@;
                steps.push(step);
                assert(steps_model(steps@) =~= before.push(said));
            },
            Operation::Emit(local) => {
                let step = CollectStep::Local(
                    LocalEmission {
                        qubits: on,
                        partition: local.partition.clone(),
                        parts: clone_list(&local.parts),
                    },
                );
                let ghost said = step@;
                steps.push(step);
                assert(steps_model(steps@) =~= before.push(said));
            },
            _ => {},
        }
        i += 1;
    }
    assert(ops.take(i as int) =~= ops);
    Ok(steps)
}

/// Read a scope onto the track, dissolving every box but a collector and reducing each collector to one
/// position.
///
/// This is the adapter between the emission circuit and [`Track`], and the only place the circuit is read:
/// everything the propagation walk needs is flat data by the time it sees it.
#[verifier::rlimit(40)]
fn flatten(
    src: &Circuit,
    scope: &Vec<usize>,
    frame: &Vec<usize>,
    track: &mut Track,
    parameters: &mut ParameterTable,
) -> (result: Result<(), SamplexError>)
    requires
        src@.wf(),
        lowerable(src@.ops),
        frame@.len() == src@.num_qubits,
        old(parameters).wf(),
        old(parameters)@.len() + absorbed(src@.ops) <= u32::MAX,
        old(track)@.wf(),
    ensures
        final(parameters).wf(),
        final(parameters)@.len() <= old(parameters)@.len() + absorbed(src@.ops),
        final(track)@.wf(),
        match flattened(
            src@.ops,
            scope@,
            frame@,
            Reading { track: old(track)@, angles: old(parameters)@ },
        ) {
            Ok(said) => result is Ok && final(track)@ == said.track && final(parameters)@
                == said.angles,
            Err(error) => result matches Err(reported) && reported@ == error,
        },
    decreases src@,
{
    let ghost ops = src@.ops;
    let ghost start = Reading { track: track@, angles: parameters@ };
    let mut i: usize = 0;
    while i < src.ops.len()
        invariant
            i <= src.ops.len(),
            ops == src@.ops,
            src@.wf(),
            lowerable(ops),
            frame@.len() == src@.num_qubits,
            parameters.wf(),
            start == (Reading { track: old(track)@, angles: old(parameters)@ }),
            start.angles.len() + absorbed(ops) <= u32::MAX,
            parameters@.len() <= start.angles.len() + absorbed(ops.take(i as int)),
            track@.wf(),
            flattened(ops.take(i as int), scope@, frame@, start) matches Ok(said) && said.track
                == track@ && said.angles == parameters@,
        decreases src.ops.len() - i,
    {
        let ghost upto = ops.take(i + 1);
        let ghost state = Reading { track: track@, angles: parameters@ };
        let inst = &src.ops[i];
        proof {
            assert(upto.drop_last() =~= ops.take(i as int));
            assert(upto.last() == inst@);
            assert(ops[i as int] == inst@);
            assert(lowerable_one(ops[i as int]));
            assert(ops[i as int].wf(src@.num_qubits, src@.num_clbits));
            lemma_absorbed_take(ops, i + 1);
            assert(absorbed(upto) == absorbed(ops.take(i as int)) + absorbed_in(inst@));
            assert(flattened(ops.take(i as int), scope@, frame@, start)->Ok_0 == state);
            assert(flattened(upto, scope@, frame@, start) == flattened_one(
                inst@,
                scope@,
                frame@,
                state,
            ));
            assert forall|k: int| 0 <= k < inst@.qubits.len() implies (#[trigger] inst@.qubits[k])
                < frame@.len() by {}
        }
        let qubits = read_through(frame, &inst.qubits);
        if let Some(collector) = collect_annotation(inst) {
            let mut steps: Vec<CollectStep> = Vec::new();
            assert(steps_model(steps@) =~= Seq::<CollectStepModel>::empty());
            match block_body(inst) {
                Ok(Some(body)) => {
                    assert(inst@.blocks[0].wf());
                    match collector_steps(body, &qubits, parameters) {
                        Ok(read) => {
                            steps = read;
                        },
                        Err(error) => {
                            proof {
                                lemma_flattened_prefix(ops, scope@, frame@, start, i + 1);
                            }
                            return Err(error);
                        },
                    }
                },
                Ok(None) => {
                    assert(inst@.blocks.len() == 0);
                    assert(read_steps(Seq::empty(), qubits@, parameters@) == Ok::<
                        (Seq<CollectStepModel>, Seq<ExpressionModel>),
                        ErrorModel,
                    >((Seq::empty(), parameters@)));
                },
                Err(error) => {
                    proof {
                        lemma_flattened_prefix(ops, scope@, frame@, start, i + 1);
                    }
                    return Err(error);
                },
            }
            let param_indices: Vec<usize> = Vec::new();
            assert(param_indices@ =~= Seq::<usize>::empty());
            let order = in_order(&qubits);
            proof {
                assert forall|k: int| 0 <= k < order@.len() implies (#[trigger] order@[k])
                    < inst@.qubits.len() by {
                    assert(positions(order@)[k] == order@[k]);
                }
            }
            let wires = arrange(&inst.qubits, &order);
            proof {
                lemma_lined_up(inst@, frame@);
                assert forall|k: int| 0 <= k < wires@.len() implies (#[trigger] wires@[k])
                    < frame@.len() by {
                    assert(inst@.qubits.contains(wires@[k]));
                }
            }
            let partition = if collector.partition.num_qubits() == order.len() {
                collector.partition.reindexed(&order)
            } else {
                collector.partition.clone()
            };
            track.push_collector(
                Collector {
                    site: Site { scope: clone_list(scope), node: inst.node },
                    partition,
                    qubits: read_through(frame, &wires),
                    synthesizer: collector.synthesizer(),
                    param_indices,
                    steps,
                },
            );
        } else {
            // A box left by here is a grouping and nothing more, a collector having been handled. Dissolve
            // it, so its gates sit on the same track as the gates that surrounded it.
            match plain_box_body(inst) {
                Ok(Some(body)) => {
                    let inner_scope = descend(scope, inst.node);
                    proof {
                        assert(inst@.blocks[0].wf());
                        assert(decreases_to!(src@ => src@.ops));
                        assert(decreases_to!(src@.ops => src@.ops[i as int]));
                        assert(decreases_to!(src@.ops[i as int] => src@.ops[i as int].blocks));
                        assert(decreases_to!(src@.ops[i as int].blocks => src@.ops[i as int].blocks[0]));
                        assert(absorbed_in(inst@) == absorbed(inst@.blocks[0].ops));
                    }
                    match flatten(body, &inner_scope, &qubits, track, parameters) {
                        Ok(_) => {},
                        Err(error) => {
                            proof {
                                lemma_flattened_prefix(ops, scope@, frame@, start, i + 1);
                            }
                            return Err(error);
                        },
                    }
                },
                Ok(None) => {
                    let item = match &inst.op {
                        Operation::Emit(emission) => Item::Emission(emission.clone(), qubits),
                        Operation::Gate(gate) => Item::Gate(*gate, qubits),
                        Operation::Measure => Item::Measure(qubits, clone_list(&inst.clbits)),
                        Operation::Reset => Item::Reset(qubits),
                        _ => Item::Opaque,
                    };
                    assert(item@ == flat_item(inst@, through(frame@, inst@.qubits)));
                    let ghost said = item@;
                    track.push_item(item);
                    proof {
                        assert(!(said is Collector));
                        assert forall|k: int| 0 <= k < track@.items.len() implies ((
                        #[trigger] track@.items[k]) matches ItemModel::Collector(named) ==> named
                            < track@.collectors.len()) by {
                            if k < state.track.items.len() {
                                assert(track@.items[k] == state.track.items[k]);
                            }
                        }
                    }
                },
                Err(error) => {
                    proof {
                        lemma_flattened_prefix(ops, scope@, frame@, start, i + 1);
                    }
                    return Err(error);
                },
            }
        }
        i += 1;
    }
    assert(ops.take(i as int) =~= ops);
    Ok(())
}

/// A track once its collectors have the ranges minted for their sites.
pub open spec fn ranged(track: TrackModel, params: Seq<ParamsModel>) -> TrackModel {
    TrackModel {
        items: track.items,
        collectors: joined(params, track.collectors, join_reach(params, track.collectors)),
    }
}

/// Build the sampling graph for an emission circuit, and the parameter table it refers into.
///
/// `collectors` must come from [`build_template`] over the same circuit. Each is matched to the graph
/// collector standing at the same [`Site`], so the two walks agreeing on *which* collect boxes exist is what
/// is required of them, not agreeing on the order they report them in.
///
/// The parameter table comes back untouched by the graph: it is minted by the reading, since the reading is
/// what sees the absorbed angles.
pub fn build_sampling_graph(
    dag: &Circuit,
    table: &DistributionTable,
    collectors: &[CollectorParams],
) -> (result: Result<(SamplingGraph, ParameterTable), SamplexError>)
    requires
        dag@.wf(),
        lowerable(dag@.ops),
        absorbed(dag@.ops) <= u32::MAX,
        reading_of(dag@) matches Ok(reading) ==> ({
            let minted = track::params_model(collectors@);
            let track = ranged(reading.track, minted);
            join_refusal(minted, reading.track.collectors) is None ==> track.travels()
                && room_for_track(track, table@, track.collectors.len(), 0)
        }),
    ensures
        match reading_of(dag@) {
            Err(error) => result matches Err(reported) && reported@ == error,
            Ok(reading) => {
                let minted = track::params_model(collectors@);
                let track = ranged(reading.track, minted);
                match join_refusal(minted, reading.track.collectors) {
                    Some(error) => result matches Err(reported) && reported@ == error,
                    None => match build_refusal(track, table@) {
                        Some(error) => result matches Err(reported) && reported@ == error,
                        None => result matches Ok((graph, parameters)) && built(
                            track,
                            table@,
                            graph@,
                        ) && graph@.wf() && (track.grouped() ==> graph@.grouped())
                            && parameters.wf() && parameters@ == reading.angles,
                    },
                }
            },
        },
{
    let mut track = Track::default();
    let mut parameters = ParameterTable::new();
    let identity = count_from(0, dag.num_qubits);
    let scope: Vec<usize> = Vec::new();
    proof {
        assert(scope@ =~= Seq::<usize>::empty());
        assert(track@ =~= (TrackModel { items: Seq::empty(), collectors: Seq::empty() }));
    }
    match flatten(dag, &scope, &identity, &mut track, &mut parameters) {
        Ok(_) => {},
        Err(error) => {
            return Err(error);
        },
    }
    let ghost read = track@;
    match track.attach_param_indices(collectors) {
        Ok(_) => {},
        Err(error) => {
            return Err(error);
        },
    }
    proof {
        let minted = track::params_model(collectors@);
        assert(track@ =~= ranged(read, minted));
        assert forall|i: int| 0 <= i < track@.items.len() implies ((
        #[trigger] track@.items[i]) matches ItemModel::Collector(named) ==> named
            < track@.collectors.len()) by {
            assert(track@.items[i] == read.items[i]);
        }
    }
    match SamplingGraphBuilder::new(track, table).build() {
        Ok(graph) => Ok((graph, parameters)),
        Err(error) => Err(error),
    }
}

// --- What the two readers agree on --------------------------------------------------------------

/// The collectors met reading a run of instructions, one after another.
pub open spec fn met_sites(ops: Seq<InstructionModel>, scope: Seq<usize>) -> Seq<SiteModel>
    decreases ops,
{
    if ops.len() == 0 {
        Seq::empty()
    } else {
        met_sites(ops.drop_last(), scope) + met_in(ops.last(), scope)
    }
}

/// The collectors met reading one instruction.
pub open spec fn met_in(inst: InstructionModel, scope: Seq<usize>) -> Seq<SiteModel>
    decreases inst,
{
    if inst.op.is_collector() {
        seq![SiteModel { scope, node: inst.node }]
    } else if inst.op.is_box() && inst.blocks.len() == 1 {
        met_sites(inst.blocks[0].ops, scope.push(inst.node))
    } else {
        Seq::empty()
    }
}

/// Writing a run mints parameters for exactly the collectors met, in that order.
pub proof fn lemma_template_mints_for_what_it_meets(
    ops: Seq<InstructionModel>,
    scope: Seq<usize>,
    frame: Seq<usize>,
    global: Seq<usize>,
    state: Writing,
)
    ensures
        written(ops, scope, frame, global, state) matches Ok(after) ==> minted_sites(after.minted)
            == minted_sites(state.minted) + met_sites(ops, scope),
    decreases ops,
{
    if ops.len() == 0 {
        assert(minted_sites(state.minted) + Seq::<SiteModel>::empty() =~= minted_sites(
            state.minted,
        ));
    } else {
        lemma_template_mints_for_what_it_meets(ops.drop_last(), scope, frame, global, state);
        if let Ok(so_far) = written(ops.drop_last(), scope, frame, global, state) {
            lemma_template_mints_one(ops.last(), scope, frame, global, so_far);
            if let Ok(after) = written_one(ops.last(), scope, frame, global, so_far) {
                assert(minted_sites(state.minted) + met_sites(ops.drop_last(), scope) + met_in(
                    ops.last(),
                    scope,
                ) =~= minted_sites(state.minted) + met_sites(ops, scope));
            }
        }
    }
}

proof fn lemma_template_mints_one(
    inst: InstructionModel,
    scope: Seq<usize>,
    frame: Seq<usize>,
    global: Seq<usize>,
    state: Writing,
)
    ensures
        written_one(inst, scope, frame, global, state) matches Ok(after) ==> minted_sites(
            after.minted,
        ) == minted_sites(state.minted) + met_in(inst, scope),
    decreases inst,
{
    if let Ok(after) = written_one(inst, scope, frame, global, state) {
        if inst.op.is_collector() {
            assert(minted_sites(after.minted) =~= minted_sites(state.minted) + met_in(inst, scope));
        } else if !(inst.op is Emit) && inst.op.is_box() && inst.blocks.len() == 1 {
            lemma_template_mints_for_what_it_meets(
                inst.blocks[0].ops,
                scope.push(inst.node),
                range(0, inst.qubits.len()),
                through(global, inst.qubits),
                Writing {
                    out: CircuitModel::bare(inst.qubits.len(), inst.clbits.len()),
                    minted: state.minted,
                    next: state.next,
                },
            );
        } else {
            assert(minted_sites(state.minted) + Seq::<SiteModel>::empty() =~= minted_sites(
                state.minted,
            ));
        }
    }
}

/// Reading a run puts exactly the collectors met on the track, in that order.
pub proof fn lemma_track_holds_what_it_meets(
    ops: Seq<InstructionModel>,
    scope: Seq<usize>,
    frame: Seq<usize>,
    state: Reading,
)
    ensures
        flattened(ops, scope, frame, state) matches Ok(after) ==> collector_sites(
            after.track.collectors,
        ) == collector_sites(state.track.collectors) + met_sites(ops, scope),
    decreases ops,
{
    if ops.len() == 0 {
        assert(collector_sites(state.track.collectors) + Seq::<SiteModel>::empty()
            =~= collector_sites(state.track.collectors));
    } else {
        lemma_track_holds_what_it_meets(ops.drop_last(), scope, frame, state);
        if let Ok(so_far) = flattened(ops.drop_last(), scope, frame, state) {
            lemma_track_holds_one(ops.last(), scope, frame, so_far);
            if let Ok(after) = flattened_one(ops.last(), scope, frame, so_far) {
                assert(collector_sites(state.track.collectors) + met_sites(ops.drop_last(), scope)
                    + met_in(ops.last(), scope) =~= collector_sites(state.track.collectors)
                    + met_sites(ops, scope));
            }
        }
    }
}

proof fn lemma_track_holds_one(
    inst: InstructionModel,
    scope: Seq<usize>,
    frame: Seq<usize>,
    state: Reading,
)
    ensures
        flattened_one(inst, scope, frame, state) matches Ok(after) ==> collector_sites(
            after.track.collectors,
        ) == collector_sites(state.track.collectors) + met_in(inst, scope),
    decreases inst,
{
    if let Ok(after) = flattened_one(inst, scope, frame, state) {
        let before = collector_sites(state.track.collectors);
        if inst.op.is_collector() {
            assert(collector_sites(after.track.collectors) =~= before + met_in(inst, scope));
        } else if inst.op.is_box() && inst.blocks.len() == 1 {
            lemma_track_holds_what_it_meets(
                inst.blocks[0].ops,
                scope.push(inst.node),
                through(frame, inst.qubits),
                state,
            );
        } else {
            assert(before + Seq::<SiteModel>::empty() =~= before);
        }
    }
}

/// Whether a site is inside, or is, the instruction going by a number in a scope.
spec fn under(scope: Seq<usize>, node: usize, site: SiteModel) -> bool {
    &&& site.scope.len() >= scope.len()
    &&& site.scope.push(site.node).take(scope.len() as int) == scope
    &&& site.scope.push(site.node)[scope.len() as int] == node
}

/// No collector is met twice.
proof fn lemma_met_sites_differ(ops: Seq<InstructionModel>, scope: Seq<usize>)
    requires
        forall|i: int, j: int|
            0 <= i < j < ops.len() ==> (#[trigger] ops[i]).node != (#[trigger] ops[j]).node,
        forall|i: int, b: int|
            0 <= i < ops.len() && 0 <= b < ops[i].blocks.len() ==> (
            #[trigger] ops[i].blocks[b]).wf(),
    ensures
        met_sites(ops, scope).no_duplicates(),
        forall|k: int|
            0 <= k < met_sites(ops, scope).len() ==> owned(
                ops,
                scope,
                #[trigger] met_sites(ops, scope)[k],
            ),
    decreases ops,
{
    let sites = met_sites(ops, scope);
    if ops.len() > 0 {
        let front = ops.drop_last();
        let last = ops.last();
        let before = met_sites(front, scope);
        let own = met_in(last, scope);
        assert forall|i: int, b: int| 0 <= i < front.len() && 0 <= b < front[i].blocks.len() implies (
        #[trigger] front[i].blocks[b]).wf() by {
            assert(ops[i].blocks[b].wf());
        }
        lemma_met_sites_differ(front, scope);
        assert forall|b: int| 0 <= b < last.blocks.len() implies (#[trigger] last.blocks[b]).wf() by {
            assert(ops[ops.len() - 1].blocks[b].wf());
        }
        lemma_met_in_differ(last, scope);
        assert forall|k: int| 0 <= k < sites.len() implies owned(ops, scope, #[trigger] sites[k]) by {
            if k < before.len() {
                assert(sites[k] == before[k]);
                assert(owned(front, scope, before[k]));
                let i = choose|i: int|
                    0 <= i < front.len() && under(scope, (#[trigger] front[i]).node, before[k]);
                assert(under(scope, ops[i].node, sites[k]));
            } else {
                assert(sites[k] == own[k - before.len()]);
                assert(under(scope, last.node, own[k - before.len()]));
                assert(under(scope, ops[ops.len() - 1].node, sites[k]));
            }
        }
        assert forall|a: int, b: int| 0 <= a < sites.len() && 0 <= b < sites.len() && a != b implies sites[a]
            != sites[b] by {
            lemma_apart(ops, scope, before, own, a, b);
        }
    }
}

/// Whether a site is inside, or is, some instruction of a run.
spec fn owned(ops: Seq<InstructionModel>, scope: Seq<usize>, site: SiteModel) -> bool {
    exists|i: int| 0 <= i < ops.len() && under(scope, (#[trigger] ops[i]).node, site)
}

proof fn lemma_apart(
    ops: Seq<InstructionModel>,
    scope: Seq<usize>,
    before: Seq<SiteModel>,
    own: Seq<SiteModel>,
    a: int,
    b: int,
)
    requires
        ops.len() > 0,
        forall|i: int, j: int|
            0 <= i < j < ops.len() ==> (#[trigger] ops[i]).node != (#[trigger] ops[j]).node,
        before.no_duplicates(),
        own.no_duplicates(),
        forall|k: int| 0 <= k < before.len() ==> owned(ops.drop_last(), scope, #[trigger] before[k]),
        forall|k: int| 0 <= k < own.len() ==> under(scope, ops.last().node, #[trigger] own[k]),
        0 <= a < before.len() + own.len(),
        0 <= b < before.len() + own.len(),
        a != b,
    ensures
        (before + own)[a] != (before + own)[b],
{
    let front = ops.drop_last();
    let sites = before + own;
    if a < before.len() && b < before.len() {
        assert(sites[a] == before[a] && sites[b] == before[b]);
    } else if a >= before.len() && b >= before.len() {
        assert(sites[a] == own[a - before.len()] && sites[b] == own[b - before.len()]);
    } else {
        let (early, late) = if a < before.len() {
            (a, b)
        } else {
            (b, a)
        };
        assert(sites[early] == before[early]);
        assert(sites[late] == own[late - before.len()]);
        assert(owned(front, scope, before[early]));
        let i = choose|i: int|
            0 <= i < front.len() && under(scope, (#[trigger] front[i]).node, before[early]);
        assert(ops[i].node != ops[ops.len() - 1].node);
        assert(under(scope, ops.last().node, own[late - before.len()]));
    }
}

proof fn lemma_met_in_differ(inst: InstructionModel, scope: Seq<usize>)
    requires
        forall|b: int| 0 <= b < inst.blocks.len() ==> (#[trigger] inst.blocks[b]).wf(),
    ensures
        met_in(inst, scope).no_duplicates(),
        forall|k: int|
            0 <= k < met_in(inst, scope).len() ==> under(
                scope,
                inst.node,
                #[trigger] met_in(inst, scope)[k],
            ),
    decreases inst,
{
    let sites = met_in(inst, scope);
    if inst.op.is_collector() {
        let path = scope.push(inst.node);
        assert(path.take(scope.len() as int) =~= scope);
    } else if inst.op.is_box() && inst.blocks.len() == 1 {
        let body = inst.blocks[0];
        let inner = scope.push(inst.node);
        assert(body.wf());
        assert forall|i: int, b: int| 0 <= i < body.ops.len() && 0 <= b < body.ops[i].blocks.len() implies (
        #[trigger] body.ops[i].blocks[b]).wf() by {
            assert(body.ops[i].wf(body.num_qubits, body.num_clbits));
        }
        lemma_met_sites_differ(body.ops, inner);
        assert forall|k: int| 0 <= k < sites.len() implies under(scope, inst.node, #[trigger] sites[k]) by {
            assert(owned(body.ops, inner, met_sites(body.ops, inner)[k]));
            let i = choose|i: int|
                0 <= i < body.ops.len() && under(inner, (#[trigger] body.ops[i]).node, sites[k]);
            let path = sites[k].scope.push(sites[k].node);
            assert(path.take(inner.len() as int) == inner);
            assert(path.take(scope.len() as int) =~= inner.take(scope.len() as int));
            assert(inner.take(scope.len() as int) =~= scope);
            assert(path[scope.len() as int] == inner[scope.len() as int]);
        }
    }
}

/// The template and the track of one circuit name the same collectors, each once, so parameters minted by
/// the one always join the collectors of the other.
pub proof fn lemma_readers_agree_on_collectors(circuit: CircuitModel)
    requires
        circuit.wf(),
        template_of(circuit) is Ok,
        reading_of(circuit) is Ok,
    ensures
        minted_sites(template_of(circuit)->Ok_0.minted) == collector_sites(
            reading_of(circuit)->Ok_0.track.collectors,
        ),
        join_refusal(
            template_of(circuit)->Ok_0.minted,
            reading_of(circuit)->Ok_0.track.collectors,
        ) is None,
{
    let template = template_of(circuit)->Ok_0;
    let reading = reading_of(circuit)->Ok_0;
    let identity = range(0, circuit.num_qubits);
    let writing = Writing {
        out: CircuitModel::bare(circuit.num_qubits, circuit.num_clbits),
        minted: Seq::empty(),
        next: 0,
    };
    let start = Reading {
        track: TrackModel { items: Seq::empty(), collectors: Seq::empty() },
        angles: Seq::empty(),
    };
    let sites = met_sites(circuit.ops, Seq::empty());
    lemma_template_mints_for_what_it_meets(
        circuit.ops,
        Seq::empty(),
        identity,
        identity,
        writing,
    );
    lemma_track_holds_what_it_meets(circuit.ops, Seq::empty(), identity, start);
    assert(minted_sites(writing.minted) + sites =~= sites);
    assert(collector_sites(start.track.collectors) + sites =~= sites);
    assert forall|i: int, b: int| 0 <= i < circuit.ops.len() && 0 <= b < circuit.ops[i].blocks.len()
        implies (#[trigger] circuit.ops[i].blocks[b]).wf() by {
        assert(circuit.ops[i].wf(circuit.num_qubits, circuit.num_clbits));
    }
    lemma_met_sites_differ(circuit.ops, Seq::empty());
    track::lemma_equal_sites_join(template.minted, reading.track.collectors);
}

/// The qubits of the collectors met reading a run of instructions, in ascending order each.
pub open spec fn met_qubits(ops: Seq<InstructionModel>, global: Seq<usize>) -> Seq<Seq<usize>>
    decreases ops,
{
    if ops.len() == 0 {
        Seq::empty()
    } else {
        met_qubits(ops.drop_last(), global) + met_qubits_in(ops.last(), global)
    }
}

/// The qubits of the collectors met reading one instruction.
pub open spec fn met_qubits_in(inst: InstructionModel, global: Seq<usize>) -> Seq<Seq<usize>>
    decreases inst,
{
    if inst.op.is_collector() {
        seq![through(global, lined_up(inst, global))]
    } else if inst.op.is_box() && inst.blocks.len() == 1 {
        met_qubits(inst.blocks[0].ops, through(global, inst.qubits))
    } else {
        Seq::empty()
    }
}

/// The qubits of some ranges.
pub open spec fn minted_qubits(minted: Seq<ParamsModel>) -> Seq<Seq<usize>> {
    minted.map_values(|params: ParamsModel| params.qubits)
}

/// The qubits of some collectors.
pub open spec fn collector_qubits(collectors: Seq<FlatCollector>) -> Seq<Seq<usize>> {
    collectors.map_values(|collector: FlatCollector| collector.qubits)
}

proof fn lemma_template_lists(
    ops: Seq<InstructionModel>,
    scope: Seq<usize>,
    frame: Seq<usize>,
    global: Seq<usize>,
    state: Writing,
)
    ensures
        written(ops, scope, frame, global, state) matches Ok(after) ==> minted_qubits(after.minted)
            == minted_qubits(state.minted) + met_qubits(ops, global),
    decreases ops,
{
    let before = minted_qubits(state.minted);
    if ops.len() == 0 {
        assert(before + Seq::<Seq<usize>>::empty() =~= before);
    } else {
        lemma_template_lists(ops.drop_last(), scope, frame, global, state);
        if let Ok(so_far) = written(ops.drop_last(), scope, frame, global, state) {
            lemma_template_lists_one(ops.last(), scope, frame, global, so_far);
            assert(before + met_qubits(ops.drop_last(), global) + met_qubits_in(ops.last(), global)
                =~= before + met_qubits(ops, global));
        }
    }
}

proof fn lemma_template_lists_one(
    inst: InstructionModel,
    scope: Seq<usize>,
    frame: Seq<usize>,
    global: Seq<usize>,
    state: Writing,
)
    ensures
        written_one(inst, scope, frame, global, state) matches Ok(after) ==> minted_qubits(
            after.minted,
        ) == minted_qubits(state.minted) + met_qubits_in(inst, global),
    decreases inst,
{
    if let Ok(after) = written_one(inst, scope, frame, global, state) {
        let before = minted_qubits(state.minted);
        if inst.op.is_collector() {
            assert(minted_qubits(after.minted) =~= before + met_qubits_in(inst, global));
        } else if !(inst.op is Emit) && inst.op.is_box() && inst.blocks.len() == 1 {
            lemma_template_lists(
                inst.blocks[0].ops,
                scope.push(inst.node),
                range(0, inst.qubits.len()),
                through(global, inst.qubits),
                Writing {
                    out: CircuitModel::bare(inst.qubits.len(), inst.clbits.len()),
                    minted: state.minted,
                    next: state.next,
                },
            );
        } else {
            assert(before + Seq::<Seq<usize>>::empty() =~= before);
        }
    }
}

proof fn lemma_track_lists(
    ops: Seq<InstructionModel>,
    scope: Seq<usize>,
    frame: Seq<usize>,
    state: Reading,
)
    ensures
        flattened(ops, scope, frame, state) matches Ok(after) ==> collector_qubits(
            after.track.collectors,
        ) == collector_qubits(state.track.collectors) + met_qubits(ops, frame),
    decreases ops,
{
    let before = collector_qubits(state.track.collectors);
    if ops.len() == 0 {
        assert(before + Seq::<Seq<usize>>::empty() =~= before);
    } else {
        lemma_track_lists(ops.drop_last(), scope, frame, state);
        if let Ok(so_far) = flattened(ops.drop_last(), scope, frame, state) {
            lemma_track_lists_one(ops.last(), scope, frame, so_far);
            assert(before + met_qubits(ops.drop_last(), frame) + met_qubits_in(ops.last(), frame)
                =~= before + met_qubits(ops, frame));
        }
    }
}

proof fn lemma_track_lists_one(
    inst: InstructionModel,
    scope: Seq<usize>,
    frame: Seq<usize>,
    state: Reading,
)
    ensures
        flattened_one(inst, scope, frame, state) matches Ok(after) ==> collector_qubits(
            after.track.collectors,
        ) == collector_qubits(state.track.collectors) + met_qubits_in(inst, frame),
    decreases inst,
{
    if let Ok(after) = flattened_one(inst, scope, frame, state) {
        let before = collector_qubits(state.track.collectors);
        if inst.op.is_collector() {
            assert(collector_qubits(after.track.collectors) =~= before + met_qubits_in(inst, frame));
        } else if inst.op.is_box() && inst.blocks.len() == 1 {
            lemma_track_lists(
                inst.blocks[0].ops,
                scope.push(inst.node),
                through(frame, inst.qubits),
                state,
            );
        } else {
            assert(before + Seq::<Seq<usize>>::empty() =~= before);
        }
    }
}

/// Whether every list is in ascending order.
pub open spec fn all_ascend(lists: Seq<Seq<usize>>) -> bool {
    forall|k: int| 0 <= k < lists.len() ==> ascends(#[trigger] lists[k])
}

proof fn lemma_met_ascend(
    ops: Seq<InstructionModel>,
    num_qubits: nat,
    num_clbits: nat,
    global: Seq<usize>,
)
    requires
        forall|i: int| 0 <= i < ops.len() ==> (#[trigger] ops[i]).wf(num_qubits, num_clbits),
        global.no_duplicates(),
        global.len() == num_qubits,
    ensures
        all_ascend(met_qubits(ops, global)),
    decreases ops,
{
    if ops.len() > 0 {
        let front = ops.drop_last();
        let inst = ops.last();
        assert forall|i: int| 0 <= i < front.len() implies (#[trigger] front[i]).wf(
            num_qubits,
            num_clbits,
        ) by {
            assert(ops[i] == front[i]);
        }
        lemma_met_ascend(front, num_qubits, num_clbits, global);
        assert(ops[ops.len() - 1] == inst);
        assert(inst.wf(num_qubits, num_clbits));
        let there = through(global, inst.qubits);
        assert(there.no_duplicates()) by {
            assert forall|i: int, j: int| 0 <= i < there.len() && 0 <= j < there.len() && i != j implies there[i]
                != there[j] by {
                assert(inst.qubits[i] != inst.qubits[j]);
            }
        }
        let own = met_qubits_in(inst, global);
        if inst.op.is_collector() {
            lemma_ascent_sorts(there);
            lemma_lined_up(inst, global);
        } else if inst.op.is_box() && inst.blocks.len() == 1 {
            let body = inst.blocks[0];
            assert(body.wf());
            assert(decreases_to!(ops => ops[ops.len() - 1]));
            assert(decreases_to!(inst => inst.blocks));
            assert(decreases_to!(inst.blocks => inst.blocks[0]));
            assert(decreases_to!(inst.blocks[0] => inst.blocks[0].ops));
            lemma_met_ascend(body.ops, body.num_qubits, body.num_clbits, there);
        }
        assert(all_ascend(own));
        let before = met_qubits(front, global);
        let all = met_qubits(ops, global);
        assert forall|k: int| 0 <= k < all.len() implies ascends(#[trigger] all[k]) by {
            if k < before.len() {
                assert(all[k] == before[k]);
            } else {
                assert(all[k] == own[k - before.len()]);
            }
        }
    }
}

/// A collector's qubits are listed in ascending order, and alike by the template and the track: the angles minted
/// for a collector are grouped by the qubits its node has, in that order.
pub proof fn lemma_collectors_list_their_qubits_in_order(circuit: CircuitModel)
    requires
        circuit.wf(),
        circuit.num_qubits <= usize::MAX,
    ensures
        template_of(circuit) matches Ok(template) ==> all_ascend(minted_qubits(template.minted)),
        reading_of(circuit) matches Ok(reading) ==> all_ascend(
            collector_qubits(reading.track.collectors),
        ),
        template_of(circuit) is Ok && reading_of(circuit) is Ok ==> minted_qubits(
            template_of(circuit)->Ok_0.minted,
        ) == collector_qubits(reading_of(circuit)->Ok_0.track.collectors),
{
    let identity = range(0, circuit.num_qubits);
    let writing = Writing {
        out: CircuitModel::bare(circuit.num_qubits, circuit.num_clbits),
        minted: Seq::empty(),
        next: 0,
    };
    let start = Reading {
        track: TrackModel { items: Seq::empty(), collectors: Seq::empty() },
        angles: Seq::empty(),
    };
    let listed = met_qubits(circuit.ops, identity);
    lemma_template_lists(circuit.ops, Seq::empty(), identity, identity, writing);
    lemma_track_lists(circuit.ops, Seq::empty(), identity, start);
    assert(minted_qubits(writing.minted) + listed =~= listed);
    assert(collector_qubits(start.track.collectors) + listed =~= listed);
    assert(identity.no_duplicates()) by {
        assert forall|i: int, j: int| 0 <= i < identity.len() && 0 <= j < identity.len() && i != j implies identity[i]
            != identity[j] by {}
    }
    lemma_met_ascend(circuit.ops, circuit.num_qubits, circuit.num_clbits, identity);
}

/// The indices of some ranges, one range after another.
pub open spec fn all_indices(minted: Seq<ParamsModel>) -> Seq<usize>
    decreases minted.len(),
{
    if minted.len() == 0 {
        Seq::empty()
    } else {
        all_indices(minted.drop_last()) + minted.last().param_indices
    }
}

/// The ranges a template mints are the numbers from zero on, one after another: every angle of the template
/// belongs to one collector, three to each of its qubits.
pub proof fn lemma_ranges_are_consecutive(circuit: CircuitModel)
    requires
        template_of(circuit) is Ok,
    ensures
        all_indices(template_of(circuit)->Ok_0.minted) == range(0, template_of(circuit)->Ok_0.next),
        template_of(circuit)->Ok_0.next == angles(circuit.ops),
        forall|p: int|
            0 <= p < template_of(circuit)->Ok_0.minted.len() ==> (
            #[trigger] template_of(circuit)->Ok_0.minted[p]).param_indices.len() == 3
                * template_of(circuit)->Ok_0.minted[p].qubits.len(),
{
    let identity = range(0, circuit.num_qubits);
    let writing = Writing {
        out: CircuitModel::bare(circuit.num_qubits, circuit.num_clbits),
        minted: Seq::empty(),
        next: 0,
    };
    assert(all_indices(writing.minted) =~= range(0, 0));
    lemma_ranges(circuit.ops, Seq::empty(), identity, identity, writing);
}

/// What holds of the ranges minted so far.
spec fn consecutive(state: Writing) -> bool {
    &&& all_indices(state.minted) == range(0, state.next)
    &&& forall|p: int|
        0 <= p < state.minted.len() ==> (#[trigger] state.minted[p]).param_indices.len() == 3
            * state.minted[p].qubits.len()
}

proof fn lemma_ranges(
    ops: Seq<InstructionModel>,
    scope: Seq<usize>,
    frame: Seq<usize>,
    global: Seq<usize>,
    state: Writing,
)
    requires
        consecutive(state),
    ensures
        written(ops, scope, frame, global, state) matches Ok(after) ==> consecutive(after)
            && after.next == state.next + angles(ops),
    decreases ops,
{
    if ops.len() > 0 {
        lemma_ranges(ops.drop_last(), scope, frame, global, state);
        if let Ok(so_far) = written(ops.drop_last(), scope, frame, global, state) {
            lemma_ranges_one(ops.last(), scope, frame, global, so_far);
        }
    }
}

proof fn lemma_ranges_one(
    inst: InstructionModel,
    scope: Seq<usize>,
    frame: Seq<usize>,
    global: Seq<usize>,
    state: Writing,
)
    requires
        consecutive(state),
    ensures
        written_one(inst, scope, frame, global, state) matches Ok(after) ==> consecutive(after)
            && after.next == state.next + angles_of(inst),
    decreases inst,
{
    if let Ok(after) = written_one(inst, scope, frame, global, state) {
        if inst.op.is_collector() {
            lemma_lined_up(inst, global);
            assert(after.minted.drop_last() =~= state.minted);
            assert(all_indices(after.minted) =~= range(0, after.next));
        } else if !(inst.op is Emit) && inst.op.is_box() && inst.blocks.len() == 1 {
            lemma_ranges(
                inst.blocks[0].ops,
                scope.push(inst.node),
                range(0, inst.qubits.len()),
                through(global, inst.qubits),
                Writing {
                    out: CircuitModel::bare(inst.qubits.len(), inst.clbits.len()),
                    minted: state.minted,
                    next: state.next,
                },
            );
        }
    }
}

/// Whether a run of instructions can be executed as it stands: no emission and no collector is left in it,
/// at any depth.
pub open spec fn executable(ops: Seq<InstructionModel>) -> bool
    decreases ops,
{
    forall|i: int| 0 <= i < ops.len() ==> executable_one(#[trigger] ops[i])
}

/// Whether one instruction can be executed as it stands.
pub open spec fn executable_one(inst: InstructionModel) -> bool
    decreases inst,
{
    &&& !(inst.op is Emit)
    &&& !inst.op.is_collector()
    &&& forall|b: int| 0 <= b < inst.blocks.len() ==> executable((#[trigger] inst.blocks[b]).ops)
}

/// A template holds no emission and no collector, at any depth.
pub proof fn lemma_template_is_executable(circuit: CircuitModel)
    requires
        template_of(circuit) is Ok,
    ensures
        executable(template_of(circuit)->Ok_0.out.ops),
{
    let identity = range(0, circuit.num_qubits);
    lemma_written_executable(
        circuit.ops,
        Seq::empty(),
        identity,
        identity,
        Writing {
            out: CircuitModel::bare(circuit.num_qubits, circuit.num_clbits),
            minted: Seq::empty(),
            next: 0,
        },
    );
}

proof fn lemma_written_executable(
    ops: Seq<InstructionModel>,
    scope: Seq<usize>,
    frame: Seq<usize>,
    global: Seq<usize>,
    state: Writing,
)
    requires
        executable(state.out.ops),
    ensures
        written(ops, scope, frame, global, state) matches Ok(after) ==> executable(after.out.ops),
    decreases ops,
{
    if ops.len() > 0 {
        lemma_written_executable(ops.drop_last(), scope, frame, global, state);
        if let Ok(so_far) = written(ops.drop_last(), scope, frame, global, state) {
            lemma_written_one_executable(ops.last(), scope, frame, global, so_far);
        }
    }
}

proof fn lemma_with_executable(out: CircuitModel, inst: InstructionModel)
    requires
        executable(out.ops),
        executable_one(inst),
    ensures
        executable(out.with(inst).ops),
{
    let after = out.with(inst).ops;
    assert forall|i: int| 0 <= i < after.len() implies executable_one(#[trigger] after[i]) by {
        if i < out.ops.len() {
            assert(after[i] == out.ops[i]);
            assert(executable_one(out.ops[i]));
        }
    }
}

proof fn lemma_gate_executable(
    out: CircuitModel,
    gate: StandardGate,
    params: Seq<ParamModel>,
    qubit: usize,
)
    requires
        executable(out.ops),
    ensures
        executable(gate_on(out, gate, params, qubit).ops),
{
    lemma_with_executable(
        out,
        next_instruction(
            out,
            OperationModel::Gate(gate),
            params,
            Seq::empty(),
            seq![qubit],
            Seq::empty(),
        ),
    );
}

proof fn lemma_fragments_executable(
    out: CircuitModel,
    synthesizer: SynthesizerType,
    qubits: Seq<usize>,
    indices: Seq<usize>,
    count: int,
)
    requires
        executable(out.ops),
    ensures
        executable(fragments(out, synthesizer, qubits, indices, count).ops),
    decreases count,
{
    if count > 0 {
        lemma_fragments_executable(out, synthesizer, qubits, indices, count - 1);
        let start = fragments(out, synthesizer, qubits, indices, count - 1);
        let qubit = qubits[count - 1];
        let first = seq![ParamModel::Template(indices[3 * (count - 1)])];
        let second = seq![ParamModel::Template(indices[3 * (count - 1) + 1])];
        let third = seq![ParamModel::Template(indices[3 * (count - 1) + 2])];
        let one = gate_on(start, StandardGate::RZ, first, qubit);
        lemma_gate_executable(start, StandardGate::RZ, first, qubit);
        match synthesizer {
            SynthesizerType::RzSx => {
                lemma_gate_executable(one, StandardGate::SX, Seq::empty(), qubit);
                let two = gate_on(one, StandardGate::SX, Seq::empty(), qubit);
                lemma_gate_executable(two, StandardGate::RZ, second, qubit);
                let three = gate_on(two, StandardGate::RZ, second, qubit);
                lemma_gate_executable(three, StandardGate::SX, Seq::empty(), qubit);
                let four = gate_on(three, StandardGate::SX, Seq::empty(), qubit);
                lemma_gate_executable(four, StandardGate::RZ, third, qubit);
            },
            SynthesizerType::RzRx => {
                lemma_gate_executable(one, StandardGate::RX, second, qubit);
                let two = gate_on(one, StandardGate::RX, second, qubit);
                lemma_gate_executable(two, StandardGate::RZ, third, qubit);
            },
        }
    }
}

proof fn lemma_written_one_executable(
    inst: InstructionModel,
    scope: Seq<usize>,
    frame: Seq<usize>,
    global: Seq<usize>,
    state: Writing,
)
    requires
        executable(state.out.ops),
    ensures
        written_one(inst, scope, frame, global, state) matches Ok(after) ==> executable(
            after.out.ops,
        ),
    decreases inst,
{
    match inst.op.collect() {
        Some(collect) => {
            lemma_fragments_executable(
                state.out,
                collect.parts[0].synthesizer,
                through(frame, lined_up(inst, global)),
                range(state.next, inst.qubits.len() * 3),
                inst.qubits.len() as int,
            );
        },
        None => {
            if inst.op is Emit {
            } else if inst.op.is_box() && inst.blocks.len() > 0 {
                if inst.blocks.len() == 1 {
                    let inner_state = Writing {
                        out: CircuitModel::bare(inst.qubits.len(), inst.clbits.len()),
                        minted: state.minted,
                        next: state.next,
                    };
                    lemma_written_executable(
                        inst.blocks[0].ops,
                        scope.push(inst.node),
                        range(0, inst.qubits.len()),
                        through(global, inst.qubits),
                        inner_state,
                    );
                    if let Ok(inner) = written(
                        inst.blocks[0].ops,
                        scope.push(inst.node),
                        range(0, inst.qubits.len()),
                        through(global, inst.qubits),
                        inner_state,
                    ) {
                        lemma_with_executable(
                            state.out,
                            next_instruction(
                                state.out,
                                inst.op,
                                Seq::empty(),
                                seq![inner.out],
                                through(frame, inst.qubits),
                                inst.clbits,
                            ),
                        );
                    }
                }
            } else if inst.blocks.len() == 0 {
                lemma_with_executable(
                    state.out,
                    next_instruction(
                        state.out,
                        inst.op,
                        inst.params,
                        Seq::empty(),
                        through(frame, inst.qubits),
                        inst.clbits,
                    ),
                );
            }
        },
    }
}

// --- What drives a template ------------------------------------------------------------------------

/// Whether a step takes an angle of the template's own.
pub open spec fn takes_template(step: Step) -> bool {
    exists|k: int| 0 <= k < step.params.len() && (#[trigger] step.params[k]) is Template
}

/// Those of some steps that take an angle of the template's own, in the order they come in.
pub open spec fn driven(steps: Seq<Step>) -> Seq<Step>
    decreases steps.len(),
{
    if steps.len() == 0 {
        Seq::empty()
    } else if takes_template(steps.last()) {
        driven(steps.drop_last()).push(steps.last())
    } else {
        driven(steps.drop_last())
    }
}

/// What the angles minted for a collector are to drive: for each of its qubits three rotations on that qubit, each
/// by the one angle minted for it, the first and the last about z, the middle one as its synthesizer has it.
pub open spec fn rotations_of(params: ParamsModel) -> Seq<Step> {
    Seq::new(
        3 * params.qubits.len(),
        |i: int| Step {
            op: OperationModel::Gate(
                if i % 3 == 1 && params.synthesizer == SynthesizerType::RzRx {
                    StandardGate::RX
                } else {
                    StandardGate::RZ
                },
            ),
            params: seq![ParamModel::Template(params.param_indices[i])],
            qubits: seq![params.qubits[i / 3]],
        },
    )
}

/// What the angles minted for some collectors are to drive, one collector after another.
pub open spec fn rotations_for(minted: Seq<ParamsModel>) -> Seq<Step>
    decreases minted.len(),
{
    if minted.len() == 0 {
        Seq::empty()
    } else {
        rotations_for(minted.drop_last()) + rotations_of(minted.last())
    }
}

/// Whether nothing of a run that is written as it is takes an angle of a template.
pub open spec fn without_templates(ops: Seq<InstructionModel>) -> bool
    decreases ops,
{
    forall|i: int| 0 <= i < ops.len() ==> without_template(#[trigger] ops[i])
}

/// Whether one instruction takes no angle of a template, nor does what it holds if it is a content box.
pub open spec fn without_template(inst: InstructionModel) -> bool
    decreases inst,
{
    if inst.op.is_box() {
        !inst.op.is_collector() && inst.blocks.len() == 1 ==> without_templates(inst.blocks[0].ops)
    } else {
        forall|k: int| 0 <= k < inst.params.len() ==> !((#[trigger] inst.params[k]) is Template)
    }
}

proof fn lemma_driven_add(left: Seq<Step>, right: Seq<Step>)
    ensures
        driven(left + right) == driven(left) + driven(right),
    decreases right.len(),
{
    if right.len() == 0 {
        assert(left + right =~= left);
        assert(driven(left) + Seq::<Step>::empty() =~= driven(left));
    } else {
        lemma_driven_add(left, right.drop_last());
        assert((left + right).drop_last() =~= left + right.drop_last());
        assert(driven(left + right) =~= driven(left) + driven(right));
    }
}

proof fn lemma_driven_push(steps: Seq<Step>, step: Step)
    ensures
        driven(steps.push(step)) == if takes_template(step) {
            driven(steps).push(step)
        } else {
            driven(steps)
        },
{
    assert(steps.push(step).drop_last() =~= steps);
}

/// The fragment of a qubit is its rotations in order, with a quarter turn between two where the synthesizer has it so:
/// the angles come in the order given, each on one rotation, all on the qubit.
pub proof fn lemma_fragment_turns_by_each_angle(
    out: CircuitModel,
    synthesizer: SynthesizerType,
    qubit: usize,
    first: usize,
    second: usize,
    third: usize,
)
    ensures
        ({
            let angles = seq![first, second, third];
            let before = out.ops.len() as int;
            let after = fragment(out, synthesizer, qubit, first, second, third);
            let apart = if synthesizer == SynthesizerType::RzSx {
                2int
            } else {
                1int
            };
            &&& after.num_qubits == out.num_qubits
            &&& after.num_clbits == out.num_clbits
            &&& after.ops.len() == before + 2 * apart + 1
            &&& after.ops.take(before) == out.ops
            &&& forall|i: int|
                before <= i < after.ops.len() ==> (#[trigger] after.ops[i]).qubits == seq![qubit]
                    && after.ops[i].blocks.len() == 0 && after.ops[i].clbits.len() == 0
            &&& forall|k: int|
                #![trigger angles[k]]
                0 <= k < 3 ==> after.ops[before + apart * k].params == seq![
                    ParamModel::Template(angles[k]),
                ] && after.ops[before + apart * k].op == OperationModel::Gate(
                    if k == 1 && apart == 1 {
                        StandardGate::RX
                    } else {
                        StandardGate::RZ
                    },
                )
            &&& apart == 2 ==> after.ops[before + 1].op == OperationModel::Gate(StandardGate::SX)
                && after.ops[before + 1].params.len() == 0 && after.ops[before + 3].op
                == OperationModel::Gate(StandardGate::SX) && after.ops[before + 3].params.len() == 0
        }),
{
    let angles = seq![first, second, third];
    let after = fragment(out, synthesizer, qubit, first, second, third);
    assert(after.ops.take(out.ops.len() as int) =~= out.ops);
    assert(angles[0] == first && angles[1] == second && angles[2] == third);
}

proof fn lemma_gate_on_flat(
    out: CircuitModel,
    gate: StandardGate,
    params: Seq<ParamModel>,
    qubit: usize,
    frame: Seq<usize>,
)
    requires
        qubit < frame.len(),
    ensures
        flat(gate_on(out, gate, params, qubit).ops, frame) == flat(out.ops, frame).push(
            Step { op: OperationModel::Gate(gate), params, qubits: seq![frame[qubit as int]] },
        ),
{
    let inst = gate_on(out, gate, params, qubit).ops.last();
    lemma_flat_push(out.ops, inst, frame);
    assert(through(frame, seq![qubit]) =~= seq![frame[qubit as int]]);
    assert(flat(out.ops, frame) + flat_of(inst, frame) =~= flat(out.ops, frame).push(
        Step { op: OperationModel::Gate(gate), params, qubits: seq![frame[qubit as int]] },
    ));
}

/// A rotation by one angle of the template's own.
spec fn turn(gate: StandardGate, angle: usize, qubit: usize) -> Step {
    Step {
        op: OperationModel::Gate(gate),
        params: seq![ParamModel::Template(angle)],
        qubits: seq![qubit],
    }
}

proof fn lemma_fragment_driven(
    out: CircuitModel,
    synthesizer: SynthesizerType,
    qubit: usize,
    first: usize,
    second: usize,
    third: usize,
    frame: Seq<usize>,
)
    requires
        qubit < frame.len(),
    ensures
        ({
            let on = frame[qubit as int];
            let middle = if synthesizer == SynthesizerType::RzRx {
                StandardGate::RX
            } else {
                StandardGate::RZ
            };
            driven(flat(fragment(out, synthesizer, qubit, first, second, third).ops, frame))
                == driven(flat(out.ops, frame)).push(turn(StandardGate::RZ, first, on)).push(
                turn(middle, second, on),
            ).push(turn(StandardGate::RZ, third, on))
        }),
{
    let on = frame[qubit as int];
    let start = flat(out.ops, frame);
    let one = gate_on(out, StandardGate::RZ, seq![ParamModel::Template(first)], qubit);
    lemma_gate_on_flat(out, StandardGate::RZ, seq![ParamModel::Template(first)], qubit, frame);
    let a = turn(StandardGate::RZ, first, on);
    assert(a.params[0] is Template);
    lemma_driven_push(start, a);
    let c = turn(StandardGate::RZ, third, on);
    assert(c.params[0] is Template);
    match synthesizer {
        SynthesizerType::RzSx => {
            let none = Seq::<ParamModel>::empty();
            let plain = Step {
                op: OperationModel::Gate(StandardGate::SX),
                params: none,
                qubits: seq![on],
            };
            let b = turn(StandardGate::RZ, second, on);
            assert(b.params[0] is Template);
            let two = gate_on(one, StandardGate::SX, none, qubit);
            let three = gate_on(two, StandardGate::RZ, seq![ParamModel::Template(second)], qubit);
            let four = gate_on(three, StandardGate::SX, none, qubit);
            lemma_gate_on_flat(one, StandardGate::SX, none, qubit, frame);
            lemma_driven_push(flat(one.ops, frame), plain);
            lemma_gate_on_flat(
                two,
                StandardGate::RZ,
                seq![ParamModel::Template(second)],
                qubit,
                frame,
            );
            lemma_driven_push(flat(two.ops, frame), b);
            lemma_gate_on_flat(three, StandardGate::SX, none, qubit, frame);
            lemma_driven_push(flat(three.ops, frame), plain);
            lemma_gate_on_flat(
                four,
                StandardGate::RZ,
                seq![ParamModel::Template(third)],
                qubit,
                frame,
            );
            lemma_driven_push(flat(four.ops, frame), c);
        },
        SynthesizerType::RzRx => {
            let b = turn(StandardGate::RX, second, on);
            assert(b.params[0] is Template);
            let two = gate_on(one, StandardGate::RX, seq![ParamModel::Template(second)], qubit);
            lemma_gate_on_flat(
                one,
                StandardGate::RX,
                seq![ParamModel::Template(second)],
                qubit,
                frame,
            );
            lemma_driven_push(flat(one.ops, frame), b);
            lemma_gate_on_flat(
                two,
                StandardGate::RZ,
                seq![ParamModel::Template(third)],
                qubit,
                frame,
            );
            lemma_driven_push(flat(two.ops, frame), c);
        },
    }
}

proof fn lemma_fragments_driven(
    out: CircuitModel,
    qubits: Seq<usize>,
    count: int,
    frame: Seq<usize>,
    params: ParamsModel,
)
    requires
        0 <= count <= qubits.len(),
        params.qubits.len() == qubits.len(),
        params.param_indices.len() == 3 * qubits.len(),
        forall|q: int|
            0 <= q < qubits.len() ==> (#[trigger] qubits[q]) < frame.len() && params.qubits[q]
                == frame[qubits[q] as int],
    ensures
        driven(
            flat(
                fragments(out, params.synthesizer, qubits, params.param_indices, count).ops,
                frame,
            ),
        ) == driven(flat(out.ops, frame)) + rotations_of(params).take(3 * count),
    decreases count,
{
    let all = rotations_of(params);
    if count == 0 {
        assert(all.take(0) =~= Seq::<Step>::empty());
        assert(driven(flat(out.ops, frame)) + Seq::<Step>::empty() =~= driven(
            flat(out.ops, frame),
        ));
    } else {
        let q = count - 1;
        let indices = params.param_indices;
        lemma_fragments_driven(out, qubits, q, frame, params);
        let before = fragments(out, params.synthesizer, qubits, indices, q);
        assert(qubits[q] < frame.len());
        lemma_fragment_driven(
            before,
            params.synthesizer,
            qubits[q],
            indices[3 * q],
            indices[3 * q + 1],
            indices[3 * q + 2],
            frame,
        );
        assert((3 * q) % 3 == 0 && (3 * q) / 3 == q);
        assert((3 * q + 1) % 3 == 1 && (3 * q + 1) / 3 == q);
        assert((3 * q + 2) % 3 == 2 && (3 * q + 2) / 3 == q);
        assert(all.take(3 * count) =~= all.take(3 * q).push(all[3 * q]).push(all[3 * q + 1]).push(
            all[3 * q + 2],
        ));
        let known = driven(flat(out.ops, frame));
        assert(known + all.take(3 * count) =~= (known + all.take(3 * q)).push(all[3 * q]).push(
            all[3 * q + 1],
        ).push(all[3 * q + 2]));
    }
}

proof fn lemma_written_driven(
    ops: Seq<InstructionModel>,
    num_qubits: nat,
    num_clbits: nat,
    scope: Seq<usize>,
    frame: Seq<usize>,
    global: Seq<usize>,
    state: Writing,
    outer: Seq<usize>,
)
    requires
        forall|i: int| 0 <= i < ops.len() ==> (#[trigger] ops[i]).wf(num_qubits, num_clbits),
        without_templates(ops),
        frame.len() == num_qubits,
        global == through(outer, frame),
        forall|k: int| 0 <= k < frame.len() ==> (#[trigger] frame[k]) < outer.len(),
        written(ops, scope, frame, global, state) is Ok,
    ensures
        ({
            let after = written(ops, scope, frame, global, state)->Ok_0;
            &&& state.minted.len() <= after.minted.len()
            &&& after.minted.take(state.minted.len() as int) == state.minted
            &&& driven(flat(after.out.ops, outer)) == driven(flat(state.out.ops, outer))
                + rotations_for(after.minted.skip(state.minted.len() as int))
        }),
    decreases ops,
{
    let known = state.minted.len() as int;
    let start = driven(flat(state.out.ops, outer));
    if ops.len() == 0 {
        assert(state.minted.take(known) =~= state.minted);
        assert(state.minted.skip(known) =~= Seq::<ParamsModel>::empty());
        assert(start + Seq::<Step>::empty() =~= start);
    } else {
        let front = ops.drop_last();
        let last = ops.len() - 1;
        let inst = ops.last();
        assert(ops[last] == inst);
        assert forall|i: int| 0 <= i < front.len() implies (#[trigger] front[i]).wf(
            num_qubits,
            num_clbits,
        ) by {
            assert(ops[i] == front[i]);
        }
        assert(without_templates(front)) by {
            assert forall|i: int| 0 <= i < front.len() implies without_template(#[trigger] front[i]) by {
                assert(ops[i] == front[i]);
                assert(without_template(ops[i]));
            }
        }
        assert(without_template(ops[last]));
        lemma_written_driven(front, num_qubits, num_clbits, scope, frame, global, state, outer);
        let middle = written(front, scope, frame, global, state)->Ok_0;
        let after = written_one(inst, scope, frame, global, middle)->Ok_0;
        assert(ops[last].wf(num_qubits, num_clbits));
        let some = middle.minted.skip(known);
        if inst.op.is_collector() {
            let params = after.minted.last();
            let wires = lined_up(inst, global);
            lemma_lined_up(inst, global);
            let targets = through(frame, wires);
            assert forall|q: int| 0 <= q < targets.len() implies (#[trigger] targets[q]) < outer.len()
                && params.qubits[q] == outer[targets[q] as int] by {
                assert(inst.qubits.contains(wires[q]));
                let k = inst.qubits.index_of(wires[q]);
                assert(inst.qubits[k] == wires[q]);
                assert(wires[q] < frame.len());
                assert(frame[wires[q] as int] < outer.len());
            }
            lemma_fragments_driven(
                middle.out,
                targets,
                inst.qubits.len() as int,
                outer,
                params,
            );
            let all = rotations_of(params);
            assert(all.take(3 * inst.qubits.len() as int) =~= all);
            assert(after.minted.skip(known) =~= some.push(params));
            assert(some.push(params).drop_last() =~= some);
            assert(start + rotations_for(some) + all =~= start + (rotations_for(some) + all));
            assert(after.minted.take(known) =~= middle.minted.take(known));
        } else if inst.op is Emit {
        } else if inst.op.is_box() && inst.blocks.len() > 0 {
            let body = inst.blocks[0];
            let width = inst.qubits.len();
            let inner_state = Writing {
                out: CircuitModel::bare(width, inst.clbits.len()),
                minted: middle.minted,
                next: middle.next,
            };
            let inner_global = through(global, inst.qubits);
            let inner_frame = range(0, width);
            let inner = written(
                body.ops,
                scope.push(inst.node),
                inner_frame,
                inner_global,
                inner_state,
            )->Ok_0;
            assert(decreases_to!(ops => ops[last]));
            assert(decreases_to!(ops[last] => ops[last].blocks));
            assert(decreases_to!(ops[last].blocks => ops[last].blocks[0]));
            assert(decreases_to!(ops[last].blocks[0] => ops[last].blocks[0].ops));
            assert(body.wf());
            lemma_through_twice(outer, frame, inst.qubits);
            assert(through(inner_global, inner_frame) =~= inner_global);
            lemma_written_driven(
                body.ops,
                body.num_qubits,
                body.num_clbits,
                scope.push(inst.node),
                inner_frame,
                inner_global,
                inner_state,
                inner_global,
            );
            let placed = after.out.ops.last();
            lemma_flat_push(middle.out.ops, placed, outer);
            assert(flat_of(placed, outer) == flat(inner.out.ops, inner_global));
            lemma_driven_add(flat(middle.out.ops, outer), flat(inner.out.ops, inner_global));
            assert(flat(inner_state.out.ops, inner_global) =~= Seq::<Step>::empty());
            assert(driven(Seq::<Step>::empty()) =~= Seq::<Step>::empty());
            let mid = middle.minted.len() as int;
            let more = inner.minted.skip(mid);
            assert(Seq::<Step>::empty() + rotations_for(more) =~= rotations_for(more));
            assert(inner.minted.skip(known) =~= some + more) by {
                assert(inner.minted.take(mid) == middle.minted);
                assert forall|i: int| known <= i < mid implies inner.minted[i] == middle.minted[i] by {
                    assert(inner.minted.take(mid)[i] == inner.minted[i]);
                }
            }
            lemma_rotations_add(some, more);
            assert(start + rotations_for(some) + rotations_for(more) =~= start + (rotations_for(some)
                + rotations_for(more)));
            assert(inner.minted.take(known) =~= inner.minted.take(mid).take(known));
        } else {
            let placed = after.out.ops.last();
            lemma_flat_push(middle.out.ops, placed, outer);
            lemma_driven_add(flat(middle.out.ops, outer), flat_of(placed, outer));
            assert(driven(flat_of(placed, outer)) =~= Seq::<Step>::empty()) by {
                if !placed.op.is_box() {
                    let step = flat_of(placed, outer)[0];
                    assert(!takes_template(step));
                    assert(flat_of(placed, outer) =~= Seq::<Step>::empty().push(step));
                    lemma_driven_push(Seq::empty(), step);
                }
            }
            assert(driven(flat(middle.out.ops, outer)) + Seq::<Step>::empty() =~= driven(
                flat(middle.out.ops, outer),
            ));
        }
    }
}

proof fn lemma_rotations_add(left: Seq<ParamsModel>, right: Seq<ParamsModel>)
    ensures
        rotations_for(left + right) == rotations_for(left) + rotations_for(right),
    decreases right.len(),
{
    if right.len() == 0 {
        assert(left + right =~= left);
        assert(rotations_for(left) + Seq::<Step>::empty() =~= rotations_for(left));
    } else {
        lemma_rotations_add(left, right.drop_last());
        assert((left + right).drop_last() =~= left + right.drop_last());
        assert((left + right).last() == right.last());
        assert(rotations_for(left) + rotations_for(right.drop_last()) + rotations_of(right.last())
            =~= rotations_for(left) + rotations_for(right));
    }
}

/// Every angle minted for a collector drives one rotation of the template, and nothing else is driven by any: read
/// flat, the steps that take an angle of the template's own are the rotations asked for, collector by collector
/// and qubit by qubit, each by the one angle minted for it. The angles are the numbers from zero on, each once.
pub proof fn lemma_each_angle_drives_one_rotation(circuit: CircuitModel)
    requires
        circuit.wf(),
        circuit.num_qubits <= usize::MAX,
        without_templates(circuit.ops),
        template_of(circuit) is Ok,
    ensures
        ({
            let template = template_of(circuit)->Ok_0;
            let steps = driven(steps_of(template.out));
            &&& steps == rotations_for(template.minted)
            &&& steps.len() == template.next
            &&& template.next <= usize::MAX ==> forall|n: int|
                0 <= n < steps.len() ==> (#[trigger] steps[n]).params == seq![
                    ParamModel::Template(n as usize),
                ]
        }),
{
    let identity = range(0, circuit.num_qubits);
    let start = Writing {
        out: CircuitModel::bare(circuit.num_qubits, circuit.num_clbits),
        minted: Seq::empty(),
        next: 0,
    };
    assert(through(identity, identity) =~= identity);
    lemma_written_driven(
        circuit.ops,
        circuit.num_qubits,
        circuit.num_clbits,
        Seq::empty(),
        identity,
        identity,
        start,
        identity,
    );
    let template = template_of(circuit)->Ok_0;
    assert(template.minted.skip(0) =~= template.minted);
    assert(driven(flat(start.out.ops, identity)) =~= Seq::<Step>::empty());
    assert(Seq::<Step>::empty() + rotations_for(template.minted) =~= rotations_for(
        template.minted,
    ));
    lemma_ranges_are_consecutive(circuit);
    lemma_template_width(circuit.ops, Seq::empty(), identity, identity, start);
    assert(own_qubits(template.out.num_qubits) =~= identity);
    lemma_rotations_take_the_indices(template.minted);
    let steps = rotations_for(template.minted);
    let indices = all_indices(template.minted);
    assert(indices.len() == template.next);
    if template.next <= usize::MAX {
        assert forall|n: int| 0 <= n < steps.len() implies (#[trigger] steps[n]).params == seq![
            ParamModel::Template(n as usize),
        ] by {
            assert(indices[n] == n);
        }
    }
}

proof fn lemma_rotations_take_the_indices(minted: Seq<ParamsModel>)
    requires
        forall|p: int|
            0 <= p < minted.len() ==> (#[trigger] minted[p]).param_indices.len() == 3
                * minted[p].qubits.len(),
    ensures
        rotations_for(minted).len() == all_indices(minted).len(),
        forall|n: int|
            0 <= n < rotations_for(minted).len() ==> (#[trigger] rotations_for(minted)[n]).params == seq![
                ParamModel::Template(all_indices(minted)[n]),
            ],
    decreases minted.len(),
{
    if minted.len() > 0 {
        let front = minted.drop_last();
        assert forall|p: int| 0 <= p < front.len() implies (#[trigger] front[p]).param_indices.len()
            == 3 * front[p].qubits.len() by {
            assert(minted[p] == front[p]);
        }
        assert(minted[minted.len() - 1] == minted.last());
        lemma_rotations_take_the_indices(front);
        let few = rotations_for(front).len() as int;
        assert forall|n: int| 0 <= n < rotations_for(minted).len() implies (
        #[trigger] rotations_for(minted)[n]).params == seq![
            ParamModel::Template(all_indices(minted)[n]),
        ] by {
            if n < few {
                assert(rotations_for(minted)[n] == rotations_for(front)[n]);
            } else {
                assert(rotations_for(minted)[n] == rotations_of(minted.last())[n - few]);
            }
        }
    }
}

proof fn lemma_template_width(
    ops: Seq<InstructionModel>,
    scope: Seq<usize>,
    frame: Seq<usize>,
    global: Seq<usize>,
    state: Writing,
)
    ensures
        written(ops, scope, frame, global, state) matches Ok(after) ==> after.out.num_qubits
            == state.out.num_qubits,
    decreases ops.len(),
{
    if ops.len() > 0 {
        lemma_template_width(ops.drop_last(), scope, frame, global, state);
        if let Ok(so_far) = written(ops.drop_last(), scope, frame, global, state) {
            let inst = ops.last();
            let after = written_one(inst, scope, frame, global, so_far);
            if let Some(collect) = inst.op.collect() {
                lemma_fragments_width(
                    so_far.out,
                    collect.parts[0].synthesizer,
                    through(frame, lined_up(inst, global)),
                    range(so_far.next, inst.qubits.len() * 3),
                    inst.qubits.len() as int,
                );
            }
            assert(after is Ok ==> after->Ok_0.out.num_qubits == so_far.out.num_qubits);
        }
    }
}

proof fn lemma_fragments_width(
    out: CircuitModel,
    synthesizer: SynthesizerType,
    qubits: Seq<usize>,
    indices: Seq<usize>,
    count: int,
)
    ensures
        fragments(out, synthesizer, qubits, indices, count).num_qubits == out.num_qubits,
    decreases count,
{
    if count > 0 {
        lemma_fragments_width(out, synthesizer, qubits, indices, count - 1);
    }
}

/// Whether a step is of the circuit's own content and cannot be of a fragment: it takes no angle of the template's
/// own, is no quarter turn, and is no emission.
pub open spec fn of_content(step: Step) -> bool {
    &&& !takes_template(step)
    &&& step.op != OperationModel::Gate(StandardGate::SX)
    &&& !(step.op is Emit)
}

/// Those of some steps that are of the circuit's own content, in the order they come in.
pub open spec fn content_of(steps: Seq<Step>) -> Seq<Step>
    decreases steps.len(),
{
    if steps.len() == 0 {
        Seq::empty()
    } else if of_content(steps.last()) {
        content_of(steps.drop_last()).push(steps.last())
    } else {
        content_of(steps.drop_last())
    }
}

/// The steps of a run that are in no collector, in circuit order.
pub open spec fn outside(ops: Seq<InstructionModel>, frame: Seq<usize>) -> Seq<Step>
    decreases ops,
{
    if ops.len() == 0 {
        Seq::empty()
    } else {
        outside(ops.drop_last(), frame) + outside_of(ops.last(), frame)
    }
}

/// The steps of one instruction that are in no collector.
pub open spec fn outside_of(inst: InstructionModel, frame: Seq<usize>) -> Seq<Step>
    decreases inst,
{
    if !inst.op.is_box() {
        seq![Step { op: inst.op, params: inst.params, qubits: through(frame, inst.qubits) }]
    } else if !inst.op.is_collector() && inst.blocks.len() == 1 {
        outside(inst.blocks[0].ops, through(frame, inst.qubits))
    } else {
        Seq::empty()
    }
}

proof fn lemma_content_add(left: Seq<Step>, right: Seq<Step>)
    ensures
        content_of(left + right) == content_of(left) + content_of(right),
    decreases right.len(),
{
    if right.len() == 0 {
        assert(left + right =~= left);
        assert(content_of(left) + Seq::<Step>::empty() =~= content_of(left));
    } else {
        lemma_content_add(left, right.drop_last());
        assert((left + right).drop_last() =~= left + right.drop_last());
        assert(content_of(left + right) =~= content_of(left) + content_of(right));
    }
}

proof fn lemma_content_push(steps: Seq<Step>, step: Step)
    ensures
        content_of(steps.push(step)) == if of_content(step) {
            content_of(steps).push(step)
        } else {
            content_of(steps)
        },
{
    assert(steps.push(step).drop_last() =~= steps);
}

proof fn lemma_gate_on_content(
    out: CircuitModel,
    gate: StandardGate,
    params: Seq<ParamModel>,
    qubit: usize,
    frame: Seq<usize>,
)
    requires
        qubit < frame.len(),
        gate == StandardGate::SX || (params.len() > 0 && params[0] is Template),
    ensures
        content_of(flat(gate_on(out, gate, params, qubit).ops, frame)) == content_of(
            flat(out.ops, frame),
        ),
{
    lemma_gate_on_flat(out, gate, params, qubit, frame);
    let step = Step { op: OperationModel::Gate(gate), params, qubits: seq![frame[qubit as int]] };
    lemma_content_push(flat(out.ops, frame), step);
    assert(!of_content(step)) by {
        if gate != StandardGate::SX {
            assert(step.params[0] is Template);
        }
    }
}

/// A fragment is no content.
proof fn lemma_fragment_content(
    out: CircuitModel,
    synthesizer: SynthesizerType,
    qubit: usize,
    first: usize,
    second: usize,
    third: usize,
    frame: Seq<usize>,
)
    requires
        qubit < frame.len(),
    ensures
        content_of(flat(fragment(out, synthesizer, qubit, first, second, third).ops, frame))
            == content_of(flat(out.ops, frame)),
{
    let a = seq![ParamModel::Template(first)];
    let b = seq![ParamModel::Template(second)];
    let c = seq![ParamModel::Template(third)];
    let none = Seq::<ParamModel>::empty();
    let one = gate_on(out, StandardGate::RZ, a, qubit);
    lemma_gate_on_content(out, StandardGate::RZ, a, qubit, frame);
    match synthesizer {
        SynthesizerType::RzSx => {
            let two = gate_on(one, StandardGate::SX, none, qubit);
            let three = gate_on(two, StandardGate::RZ, b, qubit);
            let four = gate_on(three, StandardGate::SX, none, qubit);
            lemma_gate_on_content(one, StandardGate::SX, none, qubit, frame);
            lemma_gate_on_content(two, StandardGate::RZ, b, qubit, frame);
            lemma_gate_on_content(three, StandardGate::SX, none, qubit, frame);
            lemma_gate_on_content(four, StandardGate::RZ, c, qubit, frame);
        },
        SynthesizerType::RzRx => {
            let two = gate_on(one, StandardGate::RX, b, qubit);
            lemma_gate_on_content(one, StandardGate::RX, b, qubit, frame);
            lemma_gate_on_content(two, StandardGate::RZ, c, qubit, frame);
        },
    }
}

proof fn lemma_fragments_content(
    out: CircuitModel,
    synthesizer: SynthesizerType,
    qubits: Seq<usize>,
    indices: Seq<usize>,
    count: int,
    frame: Seq<usize>,
)
    requires
        0 <= count <= qubits.len(),
        forall|q: int| 0 <= q < qubits.len() ==> (#[trigger] qubits[q]) < frame.len(),
    ensures
        content_of(flat(fragments(out, synthesizer, qubits, indices, count).ops, frame))
            == content_of(flat(out.ops, frame)),
    decreases count,
{
    if count > 0 {
        let q = count - 1;
        lemma_fragments_content(out, synthesizer, qubits, indices, q, frame);
        assert(qubits[q] < frame.len());
        lemma_fragment_content(
            fragments(out, synthesizer, qubits, indices, q),
            synthesizer,
            qubits[q],
            indices[3 * q],
            indices[3 * q + 1],
            indices[3 * q + 2],
            frame,
        );
    }
}

proof fn lemma_written_content(
    ops: Seq<InstructionModel>,
    num_qubits: nat,
    num_clbits: nat,
    scope: Seq<usize>,
    frame: Seq<usize>,
    global: Seq<usize>,
    state: Writing,
    outer: Seq<usize>,
)
    requires
        forall|i: int| 0 <= i < ops.len() ==> (#[trigger] ops[i]).wf(num_qubits, num_clbits),
        frame.len() == num_qubits,
        global == through(outer, frame),
        forall|k: int| 0 <= k < frame.len() ==> (#[trigger] frame[k]) < outer.len(),
        written(ops, scope, frame, global, state) is Ok,
    ensures
        content_of(flat(written(ops, scope, frame, global, state)->Ok_0.out.ops, outer))
            == content_of(flat(state.out.ops, outer)) + content_of(outside(ops, global)),
    decreases ops,
{
    let start = content_of(flat(state.out.ops, outer));
    let none = Seq::<Step>::empty();
    if ops.len() == 0 {
        assert(start + none =~= start);
    } else {
        let front = ops.drop_last();
        let last = ops.len() - 1;
        let inst = ops.last();
        assert(ops[last] == inst);
        assert forall|i: int| 0 <= i < front.len() implies (#[trigger] front[i]).wf(
            num_qubits,
            num_clbits,
        ) by {
            assert(ops[i] == front[i]);
        }
        lemma_written_content(front, num_qubits, num_clbits, scope, frame, global, state, outer);
        let middle = written(front, scope, frame, global, state)->Ok_0;
        let after = written_one(inst, scope, frame, global, middle)->Ok_0;
        assert(ops[last].wf(num_qubits, num_clbits));
        let known = content_of(outside(front, global));
        lemma_content_add(outside(front, global), outside_of(inst, global));
        let own = outside_of(inst, global);
        assert(start + known + content_of(own) =~= start + (known + content_of(own)));
        if inst.op.is_collector() {
            let wires = lined_up(inst, global);
            lemma_lined_up(inst, global);
            let targets = through(frame, wires);
            assert forall|q: int| 0 <= q < targets.len() implies (#[trigger] targets[q]) < outer.len() by {
                assert(inst.qubits.contains(wires[q]));
                let k = inst.qubits.index_of(wires[q]);
                assert(inst.qubits[k] == wires[q]);
                assert(frame[wires[q] as int] < outer.len());
            }
            lemma_fragments_content(
                middle.out,
                inst.op.collect()->Some_0.parts[0].synthesizer,
                targets,
                range(middle.next, inst.qubits.len() * 3),
                inst.qubits.len() as int,
                outer,
            );
            assert(own =~= none);
            assert(start + known + none =~= start + known);
        } else if inst.op is Emit {
            assert(own =~= none.push(own[0]));
            lemma_content_push(none, own[0]);
            assert(start + known + none =~= start + known);
        } else if inst.op.is_box() && inst.blocks.len() > 0 {
            let body = inst.blocks[0];
            let width = inst.qubits.len();
            let inner_state = Writing {
                out: CircuitModel::bare(width, inst.clbits.len()),
                minted: middle.minted,
                next: middle.next,
            };
            let inner_global = through(global, inst.qubits);
            let inner_frame = range(0, width);
            let inner = written(
                body.ops,
                scope.push(inst.node),
                inner_frame,
                inner_global,
                inner_state,
            )->Ok_0;
            assert(decreases_to!(ops => ops[last]));
            assert(decreases_to!(ops[last] => ops[last].blocks));
            assert(decreases_to!(ops[last].blocks => ops[last].blocks[0]));
            assert(decreases_to!(ops[last].blocks[0] => ops[last].blocks[0].ops));
            assert(body.wf());
            lemma_through_twice(outer, frame, inst.qubits);
            assert(through(inner_global, inner_frame) =~= inner_global);
            lemma_written_content(
                body.ops,
                body.num_qubits,
                body.num_clbits,
                scope.push(inst.node),
                inner_frame,
                inner_global,
                inner_state,
                inner_global,
            );
            let placed = after.out.ops.last();
            lemma_flat_push(middle.out.ops, placed, outer);
            assert(flat_of(placed, outer) == flat(inner.out.ops, inner_global));
            lemma_content_add(flat(middle.out.ops, outer), flat(inner.out.ops, inner_global));
            assert(flat(inner_state.out.ops, inner_global) =~= none);
            assert(content_of(none) =~= none);
            assert(none + content_of(own) =~= content_of(own));
        } else {
            let placed = after.out.ops.last();
            lemma_flat_push(middle.out.ops, placed, outer);
            lemma_through_twice(outer, frame, inst.qubits);
            assert(flat_of(placed, outer) =~= own);
            lemma_content_add(flat(middle.out.ops, outer), flat_of(placed, outer));
        }
    }
}

/// Outside its collectors a circuit goes into the template as it is: read flat, the steps of the circuit's own content
/// are the same in both, with the same parameters, on the same circuit qubits and in the same order.
pub proof fn lemma_template_keeps_the_content(circuit: CircuitModel)
    requires
        circuit.wf(),
        circuit.num_qubits <= usize::MAX,
        template_of(circuit) is Ok,
    ensures
        content_of(steps_of(template_of(circuit)->Ok_0.out)) == content_of(
            outside(circuit.ops, own_qubits(circuit.num_qubits)),
        ),
{
    let identity = range(0, circuit.num_qubits);
    let start = Writing {
        out: CircuitModel::bare(circuit.num_qubits, circuit.num_clbits),
        minted: Seq::empty(),
        next: 0,
    };
    assert(through(identity, identity) =~= identity);
    lemma_written_content(
        circuit.ops,
        circuit.num_qubits,
        circuit.num_clbits,
        Seq::empty(),
        identity,
        identity,
        start,
        identity,
    );
    lemma_template_width(circuit.ops, Seq::empty(), identity, identity, start);
    assert(own_qubits(circuit.num_qubits) =~= identity);
    let none = Seq::<Step>::empty();
    assert(flat(start.out.ops, identity) =~= none);
    assert(content_of(none) =~= none);
    let all = content_of(outside(circuit.ops, identity));
    assert(none + all =~= all);
}

// --- What a track tells ----------------------------------------------------------------------------

/// One thing a circuit does that virtual state takes notice of.
pub enum Telling {
    Gate(StandardGate, Seq<usize>),
    Emission(Seq<Seq<usize>>, Seq<EmitPart>, Seq<usize>),
    Measure(Seq<usize>),
    Reset(Seq<usize>),
}

/// What a step tells.
pub open spec fn told_by_step(step: Step) -> Seq<Telling> {
    match step.op {
        OperationModel::Gate(gate) => seq![Telling::Gate(gate, step.qubits)],
        OperationModel::Emit(emit) => seq![
            Telling::Emission(emit.partition, emit.parts, step.qubits),
        ],
        OperationModel::Measure => seq![Telling::Measure(step.qubits)],
        OperationModel::Reset => seq![Telling::Reset(step.qubits)],
        _ => Seq::empty(),
    }
}

/// What some steps tell, one after another.
pub open spec fn told_by_steps(steps: Seq<Step>) -> Seq<Telling>
    decreases steps.len(),
{
    if steps.len() == 0 {
        Seq::empty()
    } else {
        told_by_steps(steps.drop_last()) + told_by_step(steps.last())
    }
}

/// What a collector tells of what it composes.
pub open spec fn told_by_collector(steps: Seq<CollectStepModel>) -> Seq<Telling> {
    steps.map_values(
        |step: CollectStepModel|
            match step {
                CollectStepModel::Gate(gate) => Telling::Gate(gate.gate, gate.qubits),
                CollectStepModel::Local(local) => Telling::Emission(
                    local.partition,
                    local.parts,
                    local.qubits,
                ),
            },
    )
}

/// What a position of a track tells.
pub open spec fn told_by_item(item: ItemModel, collectors: Seq<FlatCollector>) -> Seq<Telling> {
    match item {
        ItemModel::Emission(emit, qubits) => seq![
            Telling::Emission(emit.partition, emit.parts, qubits),
        ],
        ItemModel::Collector(index) => told_by_collector(collectors[index as int].steps),
        ItemModel::Gate(gate, qubits) => seq![Telling::Gate(gate, qubits)],
        ItemModel::Measure(qubits, _) => seq![Telling::Measure(qubits)],
        ItemModel::Reset(qubits) => seq![Telling::Reset(qubits)],
        ItemModel::Opaque => Seq::empty(),
    }
}

/// What the positions of a track tell, one after another.
pub open spec fn told_by_items(items: Seq<ItemModel>, collectors: Seq<FlatCollector>) -> Seq<Telling>
    decreases items.len(),
{
    if items.len() == 0 {
        Seq::empty()
    } else {
        told_by_items(items.drop_last(), collectors) + told_by_item(items.last(), collectors)
    }
}

proof fn lemma_told_add(left: Seq<Step>, right: Seq<Step>)
    ensures
        told_by_steps(left + right) == told_by_steps(left) + told_by_steps(right),
    decreases right.len(),
{
    if right.len() == 0 {
        assert(left + right =~= left);
        assert(told_by_steps(left) + Seq::<Telling>::empty() =~= told_by_steps(left));
    } else {
        lemma_told_add(left, right.drop_last());
        assert((left + right).drop_last() =~= left + right.drop_last());
        assert((left + right).last() == right.last());
        assert(told_by_steps(left) + told_by_steps(right.drop_last()) + told_by_step(right.last())
            =~= told_by_steps(left) + told_by_steps(right));
    }
}

proof fn lemma_told_one(step: Step)
    ensures
        told_by_steps(seq![step]) == told_by_step(step),
{
    let one = seq![step];
    assert(one.drop_last() =~= Seq::<Step>::empty());
    assert(told_by_steps(one.drop_last()) =~= Seq::<Telling>::empty());
    assert(one.last() == step);
    assert(Seq::<Telling>::empty() + told_by_step(step) =~= told_by_step(step));
}

/// One more collector changes nothing of what positions tell that name others.
proof fn lemma_told_more(
    items: Seq<ItemModel>,
    collectors: Seq<FlatCollector>,
    more: FlatCollector,
)
    requires
        (TrackModel { items, collectors }).wf(),
    ensures
        told_by_items(items, collectors.push(more)) == told_by_items(items, collectors),
    decreases items.len(),
{
    if items.len() > 0 {
        let front = items.drop_last();
        let last = items.len() - 1;
        let track = TrackModel { items, collectors };
        assert((TrackModel { items: front, collectors }).wf()) by {
            assert forall|i: int| 0 <= i < front.len() implies ((
            #[trigger] front[i]) matches ItemModel::Collector(index) ==> index < collectors.len()) by {
                assert(track.items[i] == front[i]);
            }
        }
        lemma_told_more(front, collectors, more);
        assert(track.items[last] == items.last());
    }
}

/// Whether an absorbed angle says what a parameter says.
pub open spec fn says(param: ParamModel, angle: AbsorbedParam, met: Seq<ExpressionModel>) -> bool {
    match param {
        ParamModel::Float(bits) => angle == AbsorbedParam::Bound(bits),
        ParamModel::Expression(expression) => if expression.symbols.len() > 0 {
            angle matches AbsorbedParam::Symbolic(key) && key.0 < met.len() && met[key.0 as int]
                == expression
        } else {
            match expression.value {
                Value::Real(bits) => angle == AbsorbedParam::Bound(bits),
                Value::Int(bits) => angle == AbsorbedParam::Bound(bits),
                _ => false,
            }
        },
        _ => false,
    }
}

/// Whether a list starts with another.
pub open spec fn starts_with(list: Seq<ExpressionModel>, start: Seq<ExpressionModel>) -> bool {
    start.len() <= list.len() && list.take(start.len() as int) == start
}

/// The angles of an absorbed gate are its parameters, one by one.
proof fn lemma_angles_say(params: Seq<ParamModel>, met: Seq<ExpressionModel>)
    requires
        read_angles(params, met) is Ok,
        read_angles(params, met)->Ok_0.1.len() <= u32::MAX,
    ensures
        ({
            let (angles, after) = read_angles(params, met)->Ok_0;
            &&& angles.len() == params.len()
            &&& starts_with(after, met)
            &&& forall|k: int| 0 <= k < params.len() ==> says(params[k], #[trigger] angles[k], after)
        }),
    decreases params.len(),
{
    if params.len() == 0 {
        assert(met.take(met.len() as int) =~= met);
    } else {
        let front = params.drop_last();
        let last = params.len() - 1;
        let (some, middle) = read_angles(front, met)->Ok_0;
        let (angles, after) = read_angles(params, met)->Ok_0;
        assert(starts_with(after, middle)) by {
            assert(middle.take(middle.len() as int) =~= middle);
            if let ParamModel::Expression(expression) = params[last] {
                assert(middle.push(expression).take(middle.len() as int) =~= middle);
            }
        }
        lemma_angles_say(front, met);
        assert(after.take(met.len() as int) =~= after.take(middle.len() as int).take(
            met.len() as int,
        ));
        assert forall|k: int| 0 <= k < params.len() implies says(
            params[k],
            #[trigger] angles[k],
            after,
        ) by {
            if k < last {
                assert(angles[k] == some[k]);
                assert(params[k] == front[k]);
                assert(says(front[k], some[k], middle));
                lemma_says_on(front[k], some[k], middle, after);
            } else {
                if let ParamModel::Expression(expression) = params[last] {
                    lemma_key_gives_back_its_expression(middle, expression);
                }
            }
        }
    }
}

proof fn lemma_says_on(
    param: ParamModel,
    angle: AbsorbedParam,
    met: Seq<ExpressionModel>,
    after: Seq<ExpressionModel>,
)
    requires
        says(param, angle, met),
        starts_with(after, met),
    ensures
        says(param, angle, after),
{
    if let AbsorbedParam::Symbolic(key) = angle {
        if key.0 < met.len() {
            assert(after.take(met.len() as int)[key.0 as int] == after[key.0 as int]);
        }
    }
}

/// What a collector composes is what it holds, one by one: every gate on its circuit qubits with its own angles in
/// their order, and every emission with its own parts.
pub proof fn lemma_collector_reads_what_it_holds(
    ops: Seq<InstructionModel>,
    qubits: Seq<usize>,
    met: Seq<ExpressionModel>,
)
    requires
        holds_steps(ops),
        read_steps(ops, qubits, met) is Ok,
        read_steps(ops, qubits, met)->Ok_0.1.len() <= u32::MAX,
    ensures
        ({
            let (steps, after) = read_steps(ops, qubits, met)->Ok_0;
            &&& steps.len() == ops.len()
            &&& starts_with(after, met)
            &&& forall|i: int|
                0 <= i < ops.len() ==> match ops[i].op {
                    OperationModel::Gate(gate) => (#[trigger] steps[i]) matches CollectStepModel::Gate(
                        absorbed,
                    ) && absorbed.gate == gate && absorbed.qubits == through(qubits, ops[i].qubits)
                        && absorbed.params.len() == ops[i].params.len() && forall|k: int|
                        0 <= k < ops[i].params.len() ==> says(
                            ops[i].params[k],
                            #[trigger] absorbed.params[k],
                            after,
                        ),
                    OperationModel::Emit(emit) => steps[i] == CollectStepModel::Local(
                        LocalEmissionModel {
                            qubits: through(qubits, ops[i].qubits),
                            partition: emit.partition,
                            parts: emit.parts,
                        },
                    ),
                    _ => false,
                }
        }),
    decreases ops.len(),
{
    if ops.len() == 0 {
        assert(met.take(met.len() as int) =~= met);
    } else {
        let front = ops.drop_last();
        let last = ops.len() - 1;
        assert(ops[last] == ops.last());
        assert forall|i: int| 0 <= i < front.len() implies (#[trigger] front[i]).op is Gate
            || front[i].op is Emit by {
            assert(ops[i] == front[i]);
        }
        let (some, middle) = read_steps(front, qubits, met)->Ok_0;
        let (steps, after) = read_steps(ops, qubits, met)->Ok_0;
        assert(middle.take(middle.len() as int) =~= middle);
        if ops[last].op is Gate {
            lemma_angles_say(ops[last].params, middle);
        }
        assert(starts_with(after, middle));
        lemma_collector_reads_what_it_holds(front, qubits, met);
        assert(after.take(met.len() as int) =~= after.take(middle.len() as int).take(
            met.len() as int,
        ));
        assert(ops[last].op is Gate || ops[last].op is Emit);
        assert forall|i: int| 0 <= i < ops.len() implies match ops[i].op {
            OperationModel::Gate(gate) => (#[trigger] steps[i]) matches CollectStepModel::Gate(
                absorbed,
            ) && absorbed.gate == gate && absorbed.qubits == through(qubits, ops[i].qubits)
                && absorbed.params.len() == ops[i].params.len() && forall|k: int|
                0 <= k < ops[i].params.len() ==> says(
                    ops[i].params[k],
                    #[trigger] absorbed.params[k],
                    after,
                ),
            OperationModel::Emit(emit) => steps[i] == CollectStepModel::Local(
                LocalEmissionModel {
                    qubits: through(qubits, ops[i].qubits),
                    partition: emit.partition,
                    parts: emit.parts,
                },
            ),
            _ => false,
        } by {
            if i < last {
                assert(steps[i] == some[i]);
                assert(ops[i] == front[i]);
                if let CollectStepModel::Gate(absorbed) = some[i] {
                    if front[i].op is Gate {
                        assert forall|k: int| 0 <= k < ops[i].params.len() implies says(
                            ops[i].params[k],
                            #[trigger] absorbed.params[k],
                            after,
                        ) by {
                            assert(says(front[i].params[k], absorbed.params[k], middle));
                            lemma_says_on(front[i].params[k], absorbed.params[k], middle, after);
                        }
                    }
                }
            }
        }
    }
}

/// A collector tells what it holds.
proof fn lemma_collector_tells(
    ops: Seq<InstructionModel>,
    qubits: Seq<usize>,
    met: Seq<ExpressionModel>,
)
    requires
        holds_steps(ops),
        read_steps(ops, qubits, met) is Ok,
    ensures
        told_by_collector(read_steps(ops, qubits, met)->Ok_0.0) == told_by_steps(flat(ops, qubits)),
    decreases ops.len(),
{
    if ops.len() == 0 {
        assert(told_by_collector(read_steps(ops, qubits, met)->Ok_0.0) =~= Seq::<Telling>::empty());
    } else {
        let front = ops.drop_last();
        let last = ops.len() - 1;
        assert(ops[last] == ops.last());
        assert forall|i: int| 0 <= i < front.len() implies (#[trigger] front[i]).op is Gate
            || front[i].op is Emit by {
            assert(ops[i] == front[i]);
        }
        assert(ops[last].op is Gate || ops[last].op is Emit);
        lemma_collector_tells(front, qubits, met);
        let step = flat_of(ops[last], qubits)[0];
        assert(flat_of(ops[last], qubits) =~= seq![step]);
        lemma_told_add(flat(front, qubits), seq![step]);
        lemma_told_one(step);
        assert(told_by_collector(read_steps(ops, qubits, met)->Ok_0.0) =~= told_by_steps(
            flat(ops, qubits),
        ));
    }
}

proof fn lemma_flattened_tells(
    ops: Seq<InstructionModel>,
    scope: Seq<usize>,
    frame: Seq<usize>,
    state: Reading,
)
    requires
        lowerable(ops),
        state.track.wf(),
        state.track.collectors.len() + run_size(ops) <= usize::MAX,
        flattened(ops, scope, frame, state) is Ok,
    ensures
        ({
            let after = flattened(ops, scope, frame, state)->Ok_0.track;
            &&& after.wf()
            &&& after.collectors.len() <= state.track.collectors.len() + run_size(ops)
            &&& told_by_items(after.items, after.collectors) == told_by_items(
                state.track.items,
                state.track.collectors,
            ) + told_by_steps(flat(ops, frame))
        }),
    decreases ops,
{
    let start = told_by_items(state.track.items, state.track.collectors);
    let none = Seq::<Telling>::empty();
    if ops.len() == 0 {
        assert(start + none =~= start);
    } else {
        let front = ops.drop_last();
        let last = ops.len() - 1;
        let inst = ops[last];
        assert(lowerable(front)) by {
            assert forall|i: int| 0 <= i < front.len() implies lowerable_one(#[trigger] front[i]) by {
                assert(ops[i] == front[i]);
                assert(lowerable_one(ops[i]));
            }
        }
        assert(lowerable_one(ops[last]));
        lemma_flattened_tells(front, scope, frame, state);
        let middle = flattened(front, scope, frame, state)->Ok_0;
        let after = flattened_one(inst, scope, frame, middle)->Ok_0;
        let items = middle.track.items;
        let collectors = middle.track.collectors;
        let qubits = through(frame, inst.qubits);
        let said = told_by_steps(flat(front, frame));
        let own = told_by_steps(flat_of(inst, frame));
        lemma_told_add(flat(front, frame), flat_of(inst, frame));
        assert(start + said + own =~= start + (said + own));
        assert(middle.track =~= TrackModel { items, collectors });
        if inst.op.is_collector() {
            let held = if inst.blocks.len() == 1 {
                inst.blocks[0].ops
            } else {
                Seq::empty()
            };
            lemma_collector_tells(held, qubits, middle.angles);
            let more = after.track.collectors.last();
            let index = collectors.len() as usize;
            lemma_told_more(items, collectors, more);
            assert(after.track.items.drop_last() =~= items);
            assert(after.track.items.last() == ItemModel::Collector(index));
            assert(after.track.collectors == collectors.push(more));
            assert(after.track.wf()) by {
                assert forall|i: int| 0 <= i < after.track.items.len() implies ((
                #[trigger] after.track.items[i]) matches ItemModel::Collector(at) ==> at
                    < after.track.collectors.len()) by {
                    if i < items.len() {
                        assert(after.track.items[i] == middle.track.items[i]);
                    }
                }
            }
            if inst.blocks.len() != 1 {
                assert(flat(held, qubits) =~= Seq::<Step>::empty());
                assert(flat_of(inst, frame) =~= Seq::<Step>::empty());
            }
        } else if inst.op.is_box() && inst.blocks.len() > 0 {
            assert(decreases_to!(ops => ops[last]));
            assert(decreases_to!(ops[last] => ops[last].blocks));
            assert(decreases_to!(ops[last].blocks => ops[last].blocks[0]));
            assert(decreases_to!(ops[last].blocks[0] => ops[last].blocks[0].ops));
            lemma_blocks_size_one(inst.blocks);
            lemma_flattened_tells(inst.blocks[0].ops, scope.push(inst.node), qubits, middle);
        } else {
            let item = flat_item(inst, qubits);
            assert(after.track.items.drop_last() =~= items);
            assert(after.track.items.last() == item);
            assert(after.track.wf()) by {
                assert forall|i: int| 0 <= i < after.track.items.len() implies ((
                #[trigger] after.track.items[i]) matches ItemModel::Collector(at) ==> at
                    < after.track.collectors.len()) by {
                    if i < items.len() {
                        assert(after.track.items[i] == middle.track.items[i]);
                    }
                }
            }
            if inst.op.is_box() {
                assert(flat_of(inst, frame) =~= Seq::<Step>::empty());
            } else {
                let step = flat_of(inst, frame)[0];
                assert(flat_of(inst, frame) =~= seq![step]);
                lemma_told_one(step);
            }
            assert(told_by_item(item, collectors) =~= own);
        }
    }
}

/// A track tells what its circuit does: every gate, emission, measurement and reset of the circuit read flat, on the
/// same circuit qubits and in the same order, and nothing else, what collectors hold being told where they stand.
pub proof fn lemma_track_tells_the_circuit(circuit: CircuitModel)
    requires
        circuit.num_qubits <= usize::MAX,
        run_size(circuit.ops) <= usize::MAX,
        lowerable(circuit.ops),
        reading_of(circuit) is Ok,
    ensures
        ({
            let track = reading_of(circuit)->Ok_0.track;
            told_by_items(track.items, track.collectors) == told_by_steps(steps_of(circuit))
        }),
{
    let start = Reading {
        track: TrackModel { items: Seq::empty(), collectors: Seq::empty() },
        angles: Seq::empty(),
    };
    let frame = range(0, circuit.num_qubits);
    lemma_flattened_tells(circuit.ops, Seq::empty(), frame, start);
    assert(own_qubits(circuit.num_qubits) =~= frame);
    let all = told_by_steps(steps_of(circuit));
    assert(Seq::<Telling>::empty() + all =~= all);
}

// --- Lowering --------------------------------------------------------------------------------------

/// Lower an emission circuit into its three artifacts, all read off the same circuit: template circuit,
/// sampling graph, parameter table.
pub fn lower(dag: &Circuit, table: &DistributionTable) -> (result: Result<
    (Circuit, SamplingGraph, ParameterTable),
    SamplexError,
>)
    requires
        dag@.wf(),
        names_synthesizers(dag@.ops),
        angles(dag@.ops) <= usize::MAX,
        template_of(dag@) is Ok ==> lowerable(dag@.ops) && absorbed(dag@.ops) <= u32::MAX,
        template_of(dag@) matches Ok(template) ==> (reading_of(dag@) matches Ok(reading) ==> ({
            let track = ranged(reading.track, template.minted);
            track.travels() && room_for_track(track, table@, track.collectors.len(), 0)
        })),
    ensures
        match template_of(dag@) {
            Err(error) => result matches Err(reported) && reported@ == error,
            Ok(template) => match reading_of(dag@) {
                Err(error) => result matches Err(reported) && reported@ == error,
                Ok(reading) => {
                    let track = ranged(reading.track, template.minted);
                    match build_refusal(track, table@) {
                        Some(error) => result matches Err(reported) && reported@ == error,
                        None => result matches Ok((circuit, graph, parameters)) && circuit@
                            == template.out && circuit@.wf() && built(track, table@, graph@)
                            && graph@.wf() && (track.grouped() ==> graph@.grouped())
                            && parameters.wf() && parameters@ == reading.angles,
                    }
                },
            },
        },
{
    let (template, collectors) = match build_template(dag) {
        Ok(made) => made,
        Err(error) => {
            return Err(error);
        },
    };
    proof {
        if reading_of(dag@) is Ok {
            lemma_readers_agree_on_collectors(dag@);
        }
    }
    match build_sampling_graph(dag, table, collectors.as_slice()) {
        Ok((graph, parameters)) => Ok((template, graph, parameters)),
        Err(error) => Err(error),
    }
}

} // verus!
