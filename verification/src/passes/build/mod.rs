//! Build pass: annotated circuit to emission circuit.
//!
//! Turns each annotated box into **three boxes**, collect, content, collect, with the box's emissions around
//! and inside the middle one. The annotations acted on are factored out into those emissions and collectors;
//! everything else about the box (annotations of others, its duration, its body) stays on the content box. Also
//! produces the [`DistributionTable`] those emissions reference.
//!
//! The body is **not** split here. Which of its gates fold into a dressing is decided by walking, when dressing
//! is absorbed, so what remains in a content box afterwards is exactly what could not be absorbed.
//!
//! **This pass is purely local.** Every box that emits yields exactly two collect boxes, one per side, with no
//! state across boxes but the table. So this is a single forward sweep appending to a circuit, never revisiting
//! what it has written.
//!
//! Parameters are deliberately absent; they are minted during lowering.

use vstd::prelude::*;

use crate::annotated_circuit::Annotation;
use crate::annotated_circuit::AnnotationModel;
use crate::annotated_circuit::BasisOrigin;
use crate::annotated_circuit::Dressing;
use crate::annotated_circuit::InjectNoiseSpec;
use crate::annotated_circuit::InjectionSite;
use crate::annotated_circuit::Placement;
use crate::annotated_circuit::ResolvedBasisModel;
use crate::annotated_circuit::ResolvedBox;
use crate::annotated_circuit::ResolvedBoxModel;
use crate::annotated_circuit::SynthesizerType;
use crate::annotated_circuit::TwirlSpec;
use crate::annotated_circuit::annotation_kind;
use crate::annotated_circuit::annotations_model;
use crate::annotated_circuit::placement_direction;
use crate::annotated_circuit::refusal;
use crate::annotated_circuit::resolution;
use crate::annotated_circuit::resolve_annotations;
use crate::annotated_circuit::site_direction;
use crate::beads::lemma_flat_of_within;
use crate::beads::lemma_own_apart;
use crate::beads::lemma_through_apart;
use crate::beads::run_on;
use crate::beads::steps_within;
use crate::beads::tells_apart;
use crate::circuit::Circuit;
use crate::circuit::CircuitModel;
use crate::circuit::Instruction;
use crate::circuit::InstructionModel;
use crate::circuit::Operation;
use crate::circuit::OperationModel;
use crate::circuit::first_collect;
use crate::circuit::wires_below;
use crate::collections::IndexSet;
use crate::distributions::DistEntry;
use crate::distributions::DistEntryModel;
use crate::distributions::DistKey;
use crate::distributions::DistributionTable;
use crate::distributions::DistributionTableModel;
use crate::distributions::entry_slot;
use crate::distributions::with_entry;
use crate::emission_circuit::Collect;
use crate::emission_circuit::CollectModel;
use crate::emission_circuit::CollectPart;
use crate::emission_circuit::Emit;
use crate::emission_circuit::EmitModel;
use crate::emission_circuit::EmitPart;
use crate::emission_circuit_navigation::append;
use crate::emission_circuit_navigation::append_instruction;
use crate::emission_circuit_navigation::collect_box;
use crate::emission_circuit_navigation::new_dag_body;
use crate::emission_circuit_navigation::next_instruction;
use crate::emission_circuit_navigation::own_collectors;
use crate::emission_circuit_navigation::through;
use crate::emission_circuit_navigation::write_box;
use crate::error::ErrorModel;
use crate::error::SamplexError;
use crate::flat::flat;
use crate::flat::flat_of;
use crate::flat::lemma_flat_push;
use crate::flat::lemma_through_twice;
use crate::flat::own_qubits;
use crate::flat::steps_of;
use crate::flat::Step;
use crate::parameters::Param;
use crate::parameters::ParamModel;
use crate::parameters::params_model;
use crate::partition::Partition;
use crate::partition::lemma_singletons_are_a_partition;
use crate::partition::singleton_parts;
use crate::partition::total;
use crate::virtual_flow_graph::Direction;

use super::validity::travelling;
use super::validity::valid;
use super::validity::valid_at;
use super::escape_collectors::read_through;
use super::merge_collectors::extend_set;
use super::merge_collectors::twirled_box;

verus! {

/// How deeply an emission nests inside its box, `0` being immediately against the content box.
///
/// Fixes both the order around the content and each collector's composition order. A local Clifford injection
/// counts as an injection despite resolving to a change of basis.
pub const DEPTH_TWIRL: u8 = 0;

pub const DEPTH_INJECTION: u8 = 1;

pub const DEPTH_BASIS: u8 = 2;

// --- What a box emits ---------------------------------------------------------------------------

/// An emission together with where it goes relative to its box's content.
#[verifier::ext_equal]
pub struct PlacedModel {
    pub emit: EmitModel,
    /// Which side of the content box it is written on.
    pub edge: Direction,
    /// Distance from the content box.
    pub depth: u8,
}

/// What a box emits, and the table it refers to.
#[verifier::ext_equal]
pub struct Emitting {
    pub placed: Seq<PlacedModel>,
    pub table: DistributionTableModel,
}

/// The key of an entry once it is in a table.
pub open spec fn key_of(table: DistributionTableModel, entry: DistEntryModel) -> DistKey {
    DistKey(entry_slot(table.entries, entry) as u32)
}

/// How many draws an entry is allocated, none if it is not in the table.
pub open spec fn drawn(table: DistributionTableModel, entry: DistEntryModel) -> u32 {
    if table.entries.contains(entry) {
        table.draw_counts[entry_slot(table.entries, entry) as int]
    } else {
        0
    }
}

/// A table with an entry in it, and this many more draws allocated for it.
pub open spec fn with_draws(table: DistributionTableModel, entry: DistEntryModel, count: nat) -> DistributionTableModel {
    let counts = if table.entries.contains(entry) {
        table.draw_counts
    } else {
        table.draw_counts.push(0)
    };
    DistributionTableModel {
        entries: with_entry(table.entries, entry),
        draw_counts: counts.update(
            entry_slot(table.entries, entry) as int,
            (drawn(table, entry) + count) as u32,
        ),
    }
}

/// An emission on this many qubits, one subsystem per qubit, with consecutive draws of an entry.
pub open spec fn emission(
    table: DistributionTableModel,
    entry: DistEntryModel,
    width: nat,
    direction: Direction,
    adjoint: bool,
) -> EmitModel {
    EmitModel {
        direction: Some(direction),
        partition: singleton_parts(width),
        parts: Seq::new(
            width,
            |i: int| EmitPart {
                dist: key_of(table, entry),
                draw: (drawn(table, entry) + i) as u32,
                adjoint,
            },
        ),
    }
}

/// The edge a dressing is on.
pub open spec fn dressing_edge(dressing: Dressing) -> Direction {
    match dressing {
        Dressing::Left => Direction::Left,
        Dressing::Right => Direction::Right,
    }
}

/// With the inverse pair of a twirl: one table key, one set of draws, opposite directions, both on the dressing
/// edge. The half that faces away from it is the adjoint.
pub open spec fn with_twirl(
    before: Emitting,
    twirl: Option<TwirlSpec>,
    width: nat,
    edge: Direction,
) -> Emitting {
    match twirl {
        None => before,
        Some(twirl) => {
            let entry = DistEntryModel::Distribution(twirl.distribution);
            let left = PlacedModel {
                emit: emission(before.table, entry, width, Direction::Left, edge != Direction::Left),
                edge,
                depth: DEPTH_TWIRL,
            };
            let right = PlacedModel {
                emit: emission(
                    before.table,
                    entry,
                    width,
                    Direction::Right,
                    edge != Direction::Right,
                ),
                edge,
                depth: DEPTH_TWIRL,
            };
            Emitting {
                placed: before.placed.push(left).push(right),
                table: with_draws(before.table, entry, width),
            }
        },
    }
}

/// With the emission of a change of basis, on the edge its placement names and not the dressing edge.
pub open spec fn with_basis(
    before: Emitting,
    basis: Option<ResolvedBasisModel>,
    width: nat,
) -> Emitting {
    match basis {
        None => before,
        Some(basis) => {
            let entry = DistEntryModel::Basis { mode: basis.mode, ref_id: basis.ref_id };
            let direction = placement_direction(basis.placement);
            Emitting {
                placed: before.placed.push(
                    PlacedModel {
                        emit: emission(before.table, entry, width, direction, false),
                        edge: direction,
                        depth: match basis.origin {
                            BasisOrigin::ChangeBasis => DEPTH_BASIS,
                            BasisOrigin::InjectLocalClifford => DEPTH_INJECTION,
                        },
                    },
                ),
                table: with_draws(before.table, entry, width),
            }
        },
    }
}

/// The table entry of a noise injection.
pub open spec fn noise_entry(noise: InjectNoiseSpec) -> DistEntryModel {
    DistEntryModel::Noise {
        reference: noise.reference@,
        modifier: match noise.modifier {
            Some(modifier) => Some(modifier@),
            None => None,
        },
    }
}

/// With the emission of a noise injection, on the edge its site names.
pub open spec fn with_noise(before: Emitting, noise: Option<InjectNoiseSpec>, width: nat) -> Emitting {
    match noise {
        None => before,
        Some(noise) => {
            let direction = site_direction(noise.site);
            Emitting {
                placed: before.placed.push(
                    PlacedModel {
                        emit: emission(before.table, noise_entry(noise), width, direction, false),
                        edge: direction,
                        depth: DEPTH_INJECTION,
                    },
                ),
                table: with_draws(before.table, noise_entry(noise), width),
            }
        },
    }
}

/// Everything a box emits on this many qubits.
pub open spec fn emissions_of(
    resolved: ResolvedBoxModel,
    width: nat,
    table: DistributionTableModel,
) -> Emitting {
    let edge = dressing_edge(
        match resolved.dressing {
            Some(dressing) => dressing,
            None => Dressing::Left,
        },
    );
    with_noise(
        with_basis(
            with_twirl(Emitting { placed: Seq::empty(), table }, resolved.twirl, width, edge),
            resolved.change_basis,
            width,
        ),
        resolved.inject_noise,
        width,
    )
}

// --- Where emissions go -------------------------------------------------------------------------

/// Where an emission stands relative to its box's content: outside the content box, against the box's own edge;
/// inside it, facing the collector on its side; or inside it, against the content, facing away.
#[derive(Debug, Clone, Copy, PartialEq, Eq, Structural)]
pub enum Role {
    Outer,
    Facing,
    Propagating,
}

/// The role of an emission: a change of basis names the box's own edge, so that is where it belongs, and
/// everything nearer the content than the dressing goes inside the content box.
pub open spec fn role_of(placed: PlacedModel) -> Role {
    if placed.depth >= DEPTH_BASIS {
        Role::Outer
    } else if placed.emit.direction == Some(placed.edge) {
        Role::Facing
    } else {
        Role::Propagating
    }
}

/// The emissions at one depth that have a role on an edge, in the order they were made.
pub open spec fn at_depth(
    placed: Seq<PlacedModel>,
    edge: Direction,
    role: Role,
    depth: u8,
) -> Seq<EmitModel>
    decreases placed.len(),
{
    if placed.len() == 0 {
        Seq::empty()
    } else {
        let before = at_depth(placed.drop_last(), edge, role, depth);
        let last = placed.last();
        if last.edge == edge && role_of(last) == role && last.depth == depth {
            before.push(last.emit)
        } else {
            before
        }
    }
}

/// The emissions that have a role on an edge, as they come from left to right: the deeper, the nearer the
/// content.
pub open spec fn chosen(placed: Seq<PlacedModel>, edge: Direction, role: Role) -> Seq<EmitModel> {
    let near = at_depth(placed, edge, role, DEPTH_TWIRL);
    let middle = at_depth(placed, edge, role, DEPTH_INJECTION);
    let far = at_depth(placed, edge, role, DEPTH_BASIS);
    match edge {
        Direction::Left => far + middle + near,
        Direction::Right => near + middle + far,
    }
}

/// A circuit with emissions appended, one after another, on the same wires.
pub open spec fn with_emissions(out: CircuitModel, emits: Seq<EmitModel>, qargs: Seq<usize>) -> CircuitModel
    decreases emits.len(),
{
    if emits.len() == 0 {
        out
    } else {
        let before = with_emissions(out, emits.drop_last(), qargs);
        before.with(
            next_instruction(
                before,
                OperationModel::Emit(emits.last()),
                Seq::empty(),
                Seq::empty(),
                qargs,
                Seq::empty(),
            ),
        )
    }
}

// --- Which side of the twirl point a gate lands on ----------------------------------------------

/// Whether a dressing could absorb an instruction: a single-qubit standard gate.
pub open spec fn absorbable(inst: InstructionModel) -> bool {
    inst.op is Gate && inst.qubits.len() == 1
}

/// The qubits that, sweeping the first few instructions of a run, something a dressing could not take is on. A
/// gate on such a qubit cannot be taken either.
pub open spec fn poisoned(run: Seq<InstructionModel>, count: nat) -> Set<usize>
    decreases count,
{
    if count == 0 {
        Set::empty()
    } else {
        let before = poisoned(run, (count - 1) as nat);
        let inst = run[count - 1];
        if absorbable(inst) && !before.contains(inst.qubits[0]) {
            before
        } else {
            before.union(inst.qubits.to_set())
        }
    }
}

/// Whether a gate can move to the start of its run, because nothing before it on its qubit stays behind.
pub open spec fn swept_easily(run: Seq<InstructionModel>, i: int) -> bool {
    absorbable(run[i]) && !poisoned(run, i as nat).contains(run[i].qubits[0])
}

/// Whether an instruction of a body is on the dressing's side of the twirl point. With no dressing at all
/// nothing is.
pub open spec fn easy(ops: Seq<InstructionModel>, dressing: Option<Dressing>, i: int) -> bool {
    match dressing {
        None => false,
        Some(Dressing::Left) => swept_easily(ops, i),
        Some(Dressing::Right) => swept_easily(ops.reverse(), ops.len() - 1 - i),
    }
}

/// The positions among the first few of a body's instructions that are, or are not, on the dressing's side.
pub open spec fn side(
    ops: Seq<InstructionModel>,
    dressing: Option<Dressing>,
    count: nat,
    dressed: bool,
) -> Seq<int>
    decreases count,
{
    if count == 0 {
        Seq::empty()
    } else {
        let before = side(ops, dressing, (count - 1) as nat, dressed);
        if easy(ops, dressing, count - 1) == dressed {
            before.push(count - 1)
        } else {
            before
        }
    }
}

// --- The walk -----------------------------------------------------------------------------------

/// What the pass has written: a circuit under construction, and the table.
#[verifier::ext_equal]
pub struct Draft {
    pub out: CircuitModel,
    pub table: DistributionTableModel,
}

/// Where the wires of a scope are in the circuit being written.
#[verifier::ext_equal]
pub struct Frame {
    pub qubits: Seq<usize>,
    pub clbits: Seq<usize>,
}

/// The wires of a scope that is written as a circuit of its own.
pub open spec fn own_frame(num_qubits: nat, num_clbits: nat) -> Frame {
    Frame {
        qubits: Seq::new(num_qubits, |i: int| i as usize),
        clbits: Seq::new(num_clbits, |i: int| i as usize),
    }
}

/// All positions of a run.
pub open spec fn positions(count: nat) -> Seq<int> {
    Seq::new(count, |i: int| i)
}

/// The annotations of a box that this pass does not act on. They ride along on the content box.
pub open spec fn carried(annotations: Seq<AnnotationModel>) -> Seq<AnnotationModel>
    decreases annotations.len(),
{
    if annotations.len() == 0 {
        Seq::empty()
    } else if annotations.last().kind() is None {
        carried(annotations.drop_last()).push(annotations.last())
    } else {
        carried(annotations.drop_last())
    }
}

/// A circuit with a box appended.
pub open spec fn with_box(
    out: CircuitModel,
    op: OperationModel,
    body: CircuitModel,
    qargs: Seq<usize>,
    cargs: Seq<usize>,
) -> CircuitModel {
    out.with(next_instruction(out, op, Seq::empty(), seq![body], qargs, cargs))
}

/// What the collectors of a box on this many qubits say: one subsystem per qubit, all synthesized one way.
pub open spec fn box_collect(synthesizer: SynthesizerType, width: nat) -> CollectModel {
    CollectModel {
        partition: singleton_parts(width),
        parts: Seq::new(width, |p: int| CollectPart { synthesizer }),
    }
}

/// How the collectors of a box synthesize.
pub open spec fn box_synthesizer(resolved: ResolvedBoxModel) -> SynthesizerType {
    match resolved.synthesizer {
        Some(synthesizer) => synthesizer,
        None => SynthesizerType::RzSx,
    }
}

/// What is made of some instructions of a scope, one after another: control flow other than a box is refused, a
/// box is built, and anything else is copied.
pub open spec fn walked(
    circuit: CircuitModel,
    nodes: Seq<int>,
    draft: Draft,
    frame: Frame,
    nested: bool,
) -> Result<Draft, ErrorModel>
    decreases circuit, 0nat, nodes.len(),
{
    if nodes.len() == 0 {
        Ok(draft)
    } else {
        match walked(circuit, nodes.drop_last(), draft, frame, nested) {
            Err(error) => Err(error),
            Ok(before) => if !(0 <= nodes.last() < circuit.ops.len()) {
                Ok(before)
            } else {
                let inst = circuit.ops[nodes.last()];
                match inst.op {
                    OperationModel::ControlFlow(op) => Err(
                        if nested {
                            ErrorModel::UnsupportedNestedControlFlow(op.name@)
                        } else {
                            ErrorModel::UnsupportedControlFlow(op.name@)
                        },
                    ),
                    OperationModel::Box { .. } => box_built(inst, before, frame),
                    _ => Ok(
                        Draft {
                            out: before.out.with(
                                next_instruction(
                                    before.out,
                                    inst.op,
                                    inst.params,
                                    Seq::empty(),
                                    through(frame.qubits, inst.qubits),
                                    through(frame.clbits, inst.clbits),
                                ),
                            ),
                            ..before
                        },
                    ),
                }
            },
        }
    }
}

/// What is made of a box. One that emits nothing is user content: with nothing on it worth keeping it is a
/// transparent wrapper, and its body is written straight into the current circuit; with annotations of others,
/// or a duration, the box stays. One that emits is written as three boxes, its emissions around and inside the
/// middle one.
pub open spec fn box_built(inst: InstructionModel, draft: Draft, frame: Frame) -> Result<
    Draft,
    ErrorModel,
>
    decreases inst, 0nat, 0nat,
{
    let annotations = inst.op->annotations;
    let duration = inst.op->duration;
    let resolved = resolution(annotations);
    let width = inst.qubits.len();
    let qargs = through(frame.qubits, inst.qubits);
    let cargs = through(frame.clbits, inst.clbits);
    let content_op = OperationModel::Box { annotations: carried(annotations), duration };
    if refusal(annotations) is Some {
        Err(ErrorModel::Annotations(refusal(annotations)->Some_0))
    } else if inst.blocks.len() != 1 {
        Err(ErrorModel::BoxWithoutBody)
    } else if !resolved.emits() {
        let body = inst.blocks[0];
        if carried(annotations).len() == 0 && duration is None {
            walked(
                body,
                positions(body.ops.len()),
                draft,
                Frame { qubits: qargs, clbits: cargs },
                false,
            )
        } else {
            match content(body, None, Seq::empty(), draft.table) {
                Err(error) => Err(error),
                Ok(inner) => Ok(
                    Draft {
                        out: with_box(draft.out, content_op, inner.out, qargs, cargs),
                        table: inner.table,
                    },
                ),
            }
        }
    } else {
        let body = inst.blocks[0];
        let emitting = emissions_of(resolved, width, draft.table);
        match content(body, resolved.dressing, emitting.placed, emitting.table) {
            Err(error) => Err(error),
            Ok(inner) => Ok(
                Draft {
                    out: around(
                        draft.out,
                        box_collect(box_synthesizer(resolved), width),
                        emitting.placed,
                        content_op,
                        inner.out,
                        qargs,
                        cargs,
                    ),
                    table: inner.table,
                },
            ),
        }
    }
}

/// A circuit with a content box appended, a collector and the emissions that name the box's own edge on either
/// side of it. Collectors start empty.
pub open spec fn around(
    out: CircuitModel,
    collect: CollectModel,
    placed: Seq<PlacedModel>,
    content_op: OperationModel,
    body: CircuitModel,
    qargs: Seq<usize>,
    cargs: Seq<usize>,
) -> CircuitModel {
    let empty = CircuitModel::bare(qargs.len(), cargs.len());
    let opened = with_box(out, collect_box(collect), empty, qargs, cargs);
    let left = with_emissions(opened, chosen(placed, Direction::Left, Role::Outer), qargs);
    let middle = with_box(left, content_op, body, qargs, cargs);
    let right = with_emissions(middle, chosen(placed, Direction::Right, Role::Outer), qargs);
    with_box(right, collect_box(collect), empty, qargs, cargs)
}

/// What is made of a box's body: a circuit of its own, with the emissions that go inside at the twirl point.
///
/// Where those go is not the box boundary. What is on the dressing's side of the twirl point is swept to the
/// dressing's edge and they are written just after it, so those gates multiply into the dressing instead of
/// being crossed.
pub open spec fn content(
    body: CircuitModel,
    dressing: Option<Dressing>,
    placed: Seq<PlacedModel>,
    table: DistributionTableModel,
) -> Result<Draft, ErrorModel>
    decreases body, 1nat, 0nat,
{
    let frame = own_frame(body.num_qubits, body.num_clbits);
    let count = body.ops.len();
    let near = side(body.ops, dressing, count, true);
    let far = side(body.ops, dressing, count, false);
    let start = Draft { out: CircuitModel::bare(body.num_qubits, body.num_clbits), table };
    let first = if dressing == Some(Dressing::Right) {
        Ok(start)
    } else {
        walked(body, near, start, frame, true)
    };
    match first {
        Err(error) => Err(error),
        Ok(first) => {
            let opened = with_emissions(
                with_emissions(
                    first.out,
                    chosen(placed, Direction::Left, Role::Facing),
                    frame.qubits,
                ),
                chosen(placed, Direction::Left, Role::Propagating),
                frame.qubits,
            );
            match walked(body, far, Draft { out: opened, ..first }, frame, true) {
                Err(error) => Err(error),
                Ok(middle) => {
                    let closed = Draft {
                        out: with_emissions(
                            with_emissions(
                                middle.out,
                                chosen(placed, Direction::Right, Role::Propagating),
                                frame.qubits,
                            ),
                            chosen(placed, Direction::Right, Role::Facing),
                            frame.qubits,
                        ),
                        ..middle
                    };
                    if dressing == Some(Dressing::Right) {
                        walked(body, near, closed, frame, true)
                    } else {
                        Ok(closed)
                    }
                },
            }
        },
    }
}

/// What building makes of an annotated circuit.
pub open spec fn built(dag: CircuitModel) -> Result<Draft, ErrorModel> {
    walked(
        dag,
        positions(dag.ops.len()),
        Draft {
            out: CircuitModel::bare(dag.num_qubits, dag.num_clbits),
            table: DistributionTableModel { entries: Seq::empty(), draw_counts: Seq::empty() },
        },
        own_frame(dag.num_qubits, dag.num_clbits),
        false,
    )
}

// --- How much a circuit asks of the table ---------------------------------------------------------

/// How many draws and table entries an instruction can ask for at most: for a box, three entries with a draw for
/// each qubit of each, and what its body asks for.
pub open spec fn demand_of(inst: InstructionModel) -> nat
    decreases inst,
{
    if inst.op.is_box() && inst.blocks.len() == 1 {
        3 * (inst.qubits.len() + 1) + demand(inst.blocks[0].ops)
    } else {
        0
    }
}

/// How many draws and table entries a run can ask for at most.
pub open spec fn demand(ops: Seq<InstructionModel>) -> nat
    decreases ops,
{
    if ops.len() == 0 {
        0
    } else {
        demand(ops.drop_last()) + demand_of(ops.last())
    }
}

/// What some instructions of a run ask for.
spec fn demand_at(ops: Seq<InstructionModel>, nodes: Seq<int>) -> nat
    decreases nodes.len(),
{
    if nodes.len() == 0 {
        0
    } else {
        demand_at(ops, nodes.drop_last()) + demand_of(ops[nodes.last()])
    }
}

proof fn lemma_demand_positions(ops: Seq<InstructionModel>, count: nat)
    requires
        count <= ops.len(),
    ensures
        demand_at(ops, positions(count)) == demand(ops.take(count as int)),
    decreases count,
{
    if count > 0 {
        let less = (count - 1) as nat;
        lemma_demand_positions(ops, less);
        assert(positions(count).drop_last() =~= positions(less));
        assert(ops.take(count as int).drop_last() =~= ops.take(less as int));
    }
}

proof fn lemma_demand_sides(ops: Seq<InstructionModel>, dressing: Option<Dressing>, count: nat)
    requires
        count <= ops.len(),
    ensures
        demand_at(ops, side(ops, dressing, count, true)) + demand_at(
            ops,
            side(ops, dressing, count, false),
        ) == demand(ops.take(count as int)),
        forall|k: int|
            0 <= k < side(ops, dressing, count, true).len() ==> 0 <= #[trigger] side(
                ops,
                dressing,
                count,
                true,
            )[k] < count,
        forall|k: int|
            0 <= k < side(ops, dressing, count, false).len() ==> 0 <= #[trigger] side(
                ops,
                dressing,
                count,
                false,
            )[k] < count,
    decreases count,
{
    if count > 0 {
        let less = (count - 1) as nat;
        lemma_demand_sides(ops, dressing, less);
        assert(ops.take(count as int).drop_last() =~= ops.take(less as int));
        let near = side(ops, dressing, less, true);
        let far = side(ops, dressing, less, false);
        assert(near.push(count - 1).drop_last() =~= near);
        assert(far.push(count - 1).drop_last() =~= far);
    }
}

proof fn lemma_demand_first(ops: Seq<InstructionModel>, nodes: Seq<int>)
    requires
        nodes.len() > 0,
    ensures
        demand_at(ops, nodes) == demand_of(ops[nodes[0]]) + demand_at(ops, nodes.drop_first()),
    decreases nodes.len(),
{
    let rest = nodes.drop_first();
    if nodes.len() == 1 {
        assert(nodes.drop_last() =~= Seq::<int>::empty());
        assert(rest =~= Seq::<int>::empty());
        assert(demand_at(ops, nodes.drop_last()) == 0);
    } else {
        lemma_demand_first(ops, nodes.drop_last());
        assert(nodes.drop_last().drop_first() =~= rest.drop_last());
        assert(rest.last() == nodes.last());
    }
}

/// Whether a table has room for this many more entries, and for as many more draws of any entry.
spec fn roomy(table: DistributionTableModel, need: nat) -> bool {
    &&& table.draw_counts.len() == table.entries.len()
    &&& table.entries.len() + need <= u32::MAX
    &&& forall|k: int|
        0 <= k < table.draw_counts.len() ==> (#[trigger] table.draw_counts[k]) + need <= u32::MAX
}

/// Whether emissions all cover this many qubits.
spec fn all_cover(placed: Seq<PlacedModel>, width: nat) -> bool {
    forall|p: int|
        0 <= p < placed.len() ==> (#[trigger] placed[p]).emit.partition == singleton_parts(width)
            && placed[p].depth <= DEPTH_BASIS
}

// --- What emissions are for ------------------------------------------------------------------------

/// Whether an emission is one a box asks for, going by the entry it draws from. A twirl is emitted on the dressing
/// edge, and is an adjoint exactly where it travels away from that edge; a change of basis and a noise injection
/// are emitted as they are, towards the edge their placement or site names. A twirl is against the content, an
/// injection further out, and a change of basis outside the box's content altogether. Every qubit has a group and
/// a draw of its own, the draws are consecutive, and the table counts them.
pub open spec fn asked_for(
    resolved: ResolvedBoxModel,
    width: nat,
    placed: PlacedModel,
    table: DistributionTableModel,
) -> bool {
    let emit = placed.emit;
    let key = emit.parts[0].dist.0 as int;
    &&& emit.direction is Some
    &&& emit.partition.len() == width
    &&& emit.parts.len() == width
    &&& forall|j: int|
        0 <= j < width ==> (#[trigger] emit.partition[j]).len() == 1 && emit.partition[j][0] == j
    &&& forall|j: int|
        0 <= j < width ==> (#[trigger] emit.parts[j]).dist == emit.parts[0].dist && emit.parts[j].draw
            == emit.parts[0].draw + j && emit.parts[j].draw < table.draw_counts[key]
    &&& width > 0 ==> key < table.entries.len() && match table.entries[key] {
        DistEntryModel::Distribution(distribution) => {
            &&& resolved.twirl matches Some(twirl) && twirl.distribution == distribution
            &&& placed.depth == DEPTH_TWIRL
            &&& placed.edge == (match resolved.dressing {
                Some(Dressing::Right) => Direction::Right,
                _ => Direction::Left,
            })
            &&& forall|j: int|
                0 <= j < width ==> ((#[trigger] emit.parts[j]).adjoint <==> emit.direction != Some(
                    placed.edge,
                ))
        },
        DistEntryModel::Basis { mode, ref_id } => {
            &&& resolved.change_basis matches Some(basis) && basis.mode == mode && basis.ref_id
                == ref_id && placed.edge == (match basis.placement {
                Placement::Start => Direction::Left,
                Placement::End => Direction::Right,
            }) && placed.depth == (match basis.origin {
                BasisOrigin::ChangeBasis => DEPTH_BASIS,
                BasisOrigin::InjectLocalClifford => DEPTH_INJECTION,
            })
            &&& emit.direction == Some(placed.edge)
            &&& forall|j: int| 0 <= j < width ==> !(#[trigger] emit.parts[j]).adjoint
        },
        DistEntryModel::Noise { reference, modifier } => {
            &&& resolved.inject_noise matches Some(noise) && noise.reference@ == reference && (
            noise.modifier is Some <==> modifier is Some) && (noise.modifier is Some
                ==> noise.modifier->0@ == modifier->0) && placed.edge == (match noise.site {
                InjectionSite::Before => Direction::Left,
                InjectionSite::After => Direction::Right,
            }) && placed.depth == DEPTH_INJECTION
            &&& emit.direction == Some(placed.edge)
            &&& forall|j: int| 0 <= j < width ==> !(#[trigger] emit.parts[j]).adjoint
        },
    }
}

/// Whether two emissions are the halves of a twirl: of the same draws, one each way, one the adjoint of the other.
pub open spec fn inverse_pair(one: PlacedModel, other: PlacedModel) -> bool {
    &&& one.edge == other.edge
    &&& one.emit.direction is Some
    &&& other.emit.direction is Some
    &&& one.emit.direction != other.emit.direction
    &&& one.emit.parts.len() == other.emit.parts.len()
    &&& forall|j: int|
        0 <= j < one.emit.parts.len() ==> (#[trigger] one.emit.parts[j]).dist
            == other.emit.parts[j].dist && one.emit.parts[j].draw == other.emit.parts[j].draw
            && one.emit.parts[j].adjoint == !other.emit.parts[j].adjoint
}

/// What a table knows of itself, and that it has this many more numbers to give.
pub open spec fn table_ready(table: DistributionTableModel, need: nat) -> bool {
    &&& table.entries.no_duplicates()
    &&& table.draw_counts.len() == table.entries.len()
    &&& table.entries.len() + need <= u32::MAX
    &&& forall|k: int|
        0 <= k < table.draw_counts.len() ==> (#[trigger] table.draw_counts[k]) + need <= u32::MAX
}

/// A box emits what it asks for and nothing else: the two halves of a twirl, its change of basis and its noise
/// injection, each as it has to be. The table keeps every entry it had under its key and gives out no draw
/// twice: what an entry is drawn for now comes after all it was drawn for before.
pub proof fn lemma_box_emits_what_it_asks_for(
    resolved: ResolvedBoxModel,
    width: nat,
    table: DistributionTableModel,
)
    requires
        table_ready(table, 3 * width + 3),
    ensures
        ({
            let made = emissions_of(resolved, width, table);
            let twirls = if resolved.twirl is Some {
                2int
            } else {
                0int
            };
            &&& made.placed.len() == twirls + (if resolved.change_basis is Some {
                1int
            } else {
                0int
            }) + (if resolved.inject_noise is Some {
                1int
            } else {
                0int
            })
            &&& forall|i: int|
                0 <= i < made.placed.len() ==> asked_for(
                    resolved,
                    width,
                    #[trigger] made.placed[i],
                    made.table,
                )
            &&& resolved.twirl is Some ==> inverse_pair(made.placed[0], made.placed[1])
            &&& table.entries.len() <= made.table.entries.len()
            &&& made.table.entries.take(table.entries.len() as int) == table.entries
            &&& forall|i: int, j: int|
                0 <= i < made.placed.len() && 0 <= j < width && (#[trigger] made.placed[i].emit.parts[j]).dist.0
                    < table.entries.len() ==> made.placed[i].emit.parts[j].draw
                    >= table.draw_counts[made.placed[i].emit.parts[j].dist.0 as int]
        }),
{
    let none = Emitting { placed: Seq::empty(), table };
    let edge = dressing_edge(
        match resolved.dressing {
            Some(dressing) => dressing,
            None => Dressing::Left,
        },
    );
    let twirled = with_twirl(none, resolved.twirl, width, edge);
    let based = with_basis(twirled, resolved.change_basis, width);
    let made = with_noise(based, resolved.inject_noise, width);
    assert(made == emissions_of(resolved, width, table));
    lemma_twirl_asked_for(resolved, width, table);
    lemma_basis_asked_for(resolved, width, twirled);
    lemma_noise_asked_for(resolved, width, based);
    let few = twirled.placed.len() as int;
    let more = based.placed.len() as int;
    assert forall|i: int| 0 <= i < made.placed.len() implies asked_for(
        resolved,
        width,
        #[trigger] made.placed[i],
        made.table,
    ) by {
        if i < few {
            assert(made.placed[i] == twirled.placed[i]);
            lemma_asked_for_stays(resolved, width, made.placed[i], twirled.table, based.table);
            lemma_asked_for_stays(resolved, width, made.placed[i], based.table, made.table);
        } else if i < more {
            assert(made.placed[i] == based.placed[i]);
            lemma_asked_for_stays(resolved, width, made.placed[i], based.table, made.table);
        }
    }
    assert(made.table.entries.take(table.entries.len() as int) =~= table.entries);
    assert forall|i: int, j: int|
        0 <= i < made.placed.len() && 0 <= j < width && (
        #[trigger] made.placed[i].emit.parts[j]).dist.0 < table.entries.len() implies made.placed[i].emit.parts[j].draw
        >= table.draw_counts[made.placed[i].emit.parts[j].dist.0 as int] by {
        let key = made.placed[i].emit.parts[j].dist.0 as int;
        if i < few {
            assert(made.placed[i] == twirled.placed[i]);
        } else if i < more {
            assert(made.placed[i] == based.placed[i]);
            assert(twirled.placed.len() <= i);
        }
    }
}

/// Whether a table keeps what another had under the same keys, and has given out no less.
spec fn grown(before: DistributionTableModel, after: DistributionTableModel) -> bool {
    &&& before.entries.len() <= after.entries.len()
    &&& forall|k: int|
        0 <= k < before.entries.len() ==> (#[trigger] after.entries[k]) == before.entries[k]
    &&& forall|k: int|
        0 <= k < before.entries.len() ==> before.draw_counts[k] <= #[trigger] after.draw_counts[k]
}

/// Whether emissions draw from what they have not been given before.
spec fn drawn_after(placed: Seq<PlacedModel>, from: int, width: nat, table: DistributionTableModel) -> bool {
    forall|i: int, j: int|
        from <= i < placed.len() && 0 <= j < width && (#[trigger] placed[i].emit.parts[j]).dist.0
            < table.entries.len() ==> placed[i].emit.parts[j].draw
            >= table.draw_counts[placed[i].emit.parts[j].dist.0 as int]
}

proof fn lemma_asked_for_stays(
    resolved: ResolvedBoxModel,
    width: nat,
    placed: PlacedModel,
    before: DistributionTableModel,
    after: DistributionTableModel,
)
    requires
        asked_for(resolved, width, placed, before),
        grown(before, after),
    ensures
        asked_for(resolved, width, placed, after),
{
    if width > 0 {
        let key = placed.emit.parts[0].dist.0 as int;
        assert(after.entries[key] == before.entries[key]);
        assert(before.draw_counts[key] <= after.draw_counts[key]);
        assert forall|j: int| 0 <= j < width implies (#[trigger] placed.emit.parts[j]).draw
            < after.draw_counts[key] by {}
    }
}

proof fn lemma_twirl_asked_for(
    resolved: ResolvedBoxModel,
    width: nat,
    table: DistributionTableModel,
)
    requires
        table_ready(table, 3 * width + 3),
    ensures
        ({
            let none = Emitting { placed: Seq::empty(), table };
            let edge = dressing_edge(
                match resolved.dressing {
                    Some(dressing) => dressing,
                    None => Dressing::Left,
                },
            );
            let twirled = with_twirl(none, resolved.twirl, width, edge);
            &&& table_ready(twirled.table, 2 * width + 2)
            &&& grown(table, twirled.table)
            &&& twirled.placed.len() == if resolved.twirl is Some {
                2int
            } else {
                0int
            }
            &&& forall|i: int|
                0 <= i < twirled.placed.len() ==> asked_for(
                    resolved,
                    width,
                    #[trigger] twirled.placed[i],
                    twirled.table,
                )
            &&& resolved.twirl is Some ==> inverse_pair(twirled.placed[0], twirled.placed[1])
            &&& drawn_after(twirled.placed, 0, width, table)
        }),
{
    lemma_singletons(width);
    if let Some(twirl) = resolved.twirl {
        let entry = DistEntryModel::Distribution(twirl.distribution);
        lemma_drawn_apart(table, entry, width, 2 * width + 2);
    }
}

proof fn lemma_basis_asked_for(resolved: ResolvedBoxModel, width: nat, before: Emitting)
    requires
        table_ready(before.table, 2 * width + 2),
    ensures
        ({
            let after = with_basis(before, resolved.change_basis, width);
            &&& table_ready(after.table, width + 1)
            &&& grown(before.table, after.table)
            &&& after.placed.len() == before.placed.len() + (if resolved.change_basis is Some {
                1int
            } else {
                0int
            })
            &&& forall|i: int|
                0 <= i < before.placed.len() ==> (#[trigger] after.placed[i]) == before.placed[i]
            &&& forall|i: int|
                before.placed.len() <= i < after.placed.len() ==> asked_for(
                    resolved,
                    width,
                    #[trigger] after.placed[i],
                    after.table,
                )
            &&& drawn_after(after.placed, before.placed.len() as int, width, before.table)
        }),
{
    lemma_singletons(width);
    if let Some(basis) = resolved.change_basis {
        let entry = DistEntryModel::Basis { mode: basis.mode, ref_id: basis.ref_id };
        lemma_drawn_apart(before.table, entry, width, width + 1);
    }
}

proof fn lemma_noise_asked_for(resolved: ResolvedBoxModel, width: nat, before: Emitting)
    requires
        table_ready(before.table, width + 1),
    ensures
        ({
            let after = with_noise(before, resolved.inject_noise, width);
            &&& grown(before.table, after.table)
            &&& after.placed.len() == before.placed.len() + (if resolved.inject_noise is Some {
                1int
            } else {
                0int
            })
            &&& forall|i: int|
                0 <= i < before.placed.len() ==> (#[trigger] after.placed[i]) == before.placed[i]
            &&& forall|i: int|
                before.placed.len() <= i < after.placed.len() ==> asked_for(
                    resolved,
                    width,
                    #[trigger] after.placed[i],
                    after.table,
                )
            &&& drawn_after(after.placed, before.placed.len() as int, width, before.table)
        }),
{
    lemma_singletons(width);
    if let Some(noise) = resolved.inject_noise {
        lemma_drawn_apart(before.table, noise_entry(noise), width, 0);
    }
}

proof fn lemma_singletons(width: nat)
    ensures
        singleton_parts(width).len() == width,
        forall|j: int|
            0 <= j < width ==> (#[trigger] singleton_parts(width)[j]).len() == 1
                && (width <= usize::MAX ==> singleton_parts(width)[j][0] == j),
{
}

/// Drawing for an entry keeps every entry under its key and every count as large, and counts what was drawn.
proof fn lemma_drawn_apart(
    table: DistributionTableModel,
    entry: DistEntryModel,
    width: nat,
    spare: nat,
)
    requires
        table_ready(table, width + 1 + spare),
    ensures
        ({
            let after = with_draws(table, entry, width);
            let key = entry_slot(table.entries, entry) as int;
            &&& table_ready(after, spare)
            &&& table.entries.len() <= after.entries.len()
            &&& forall|k: int|
                0 <= k < table.entries.len() ==> (#[trigger] after.entries[k]) == table.entries[k]
            &&& forall|k: int|
                0 <= k < table.entries.len() ==> table.draw_counts[k]
                    <= #[trigger] after.draw_counts[k]
            &&& 0 <= key < after.entries.len()
            &&& after.entries[key] == entry
            &&& after.draw_counts[key] == drawn(table, entry) + width
            &&& key_of(table, entry).0 == key
            &&& key < table.entries.len() ==> drawn(table, entry) == table.draw_counts[key]
        }),
{
    before_after(table, entry);
    let after = with_draws(table, entry, width);
    let key = entry_slot(table.entries, entry) as int;
    if table.entries.contains(entry) {
        assert(table.entries[key] == entry);
        assert(table.draw_counts[key] + (width + 1 + spare) <= u32::MAX);
    }
    assert forall|k: int| 0 <= k < after.draw_counts.len() implies (#[trigger] after.draw_counts[k])
        + spare <= u32::MAX by {
        if k < table.draw_counts.len() {
            assert(table.draw_counts[k] + (width + 1 + spare) <= u32::MAX);
        }
    }
    assert forall|k: int| 0 <= k < table.entries.len() implies table.draw_counts[k]
        <= #[trigger] after.draw_counts[k] by {
        assert(table.draw_counts[k] + (width + 1 + spare) <= u32::MAX);
    }
}

// --- Emitting --------------------------------------------------------------------------------------

struct Placed {
    emit: Emit,
    edge: Direction,
    depth: u8,
}

impl View for Placed {
    type V = PlacedModel;

    closed spec fn view(&self) -> PlacedModel {
        PlacedModel { emit: self.emit@, edge: self.edge, depth: self.depth }
    }
}

spec fn placed_model(placed: Seq<Placed>) -> Seq<PlacedModel> {
    placed.map_values(|one: Placed| one@)
}

/// Allocate this many consecutive draws of an entry, and say from which.
fn alloc_draws(table: &mut DistributionTable, entry: DistEntry, count: usize, Ghost(spare): Ghost<nat>) -> (drawing: (
    DistKey,
    u32,
))
    requires
        old(table).wf(),
        roomy(old(table)@, count as nat + 1 + spare),
    ensures
        final(table).wf(),
        final(table)@ == with_draws(old(table)@, entry@, count as nat),
        drawing.0 == key_of(old(table)@, entry@),
        drawing.1 == drawn(old(table)@, entry@),
        drawing.1 + count <= u32::MAX,
        roomy(final(table)@, spare),
{
    let ghost before = table@;
    let ghost said = entry@;
    let key = table.intern(entry);
    proof {
        before_after(before, said);
        table.lemma_wf();
    }
    let start: u32 = table.draw_counts()[key.index()];
    proof {
        lemma_drawing(before, said, count as nat, spare);
        if before.entries.contains(said) {
            assert(before.draw_counts[key.0 as int] + (count as nat + 1 + spare) <= u32::MAX);
        }
        assert(start == drawn(before, said));
    }
    table.set_draw_count(key, start + count as u32);
    assert(table@.draw_counts =~= with_draws(before, said, count as nat).draw_counts);
    (key, start)
}

proof fn before_after(table: DistributionTableModel, entry: DistEntryModel)
    ensures
        entry_slot(table.entries, entry) < with_entry(table.entries, entry).len(),
{
    if table.entries.contains(entry) {
        assert(table.entries[table.entries.index_of(entry)] == entry);
    }
}

/// Drawing takes up one entry at most, and as much of any entry's draws as were drawn.
proof fn lemma_drawing(table: DistributionTableModel, entry: DistEntryModel, count: nat, spare: nat)
    requires
        roomy(table, count + 1 + spare),
    ensures
        roomy(with_draws(table, entry, count), spare),
{
    before_after(table, entry);
    let after = with_draws(table, entry, count);
    let slot = entry_slot(table.entries, entry) as int;
    assert forall|k: int| 0 <= k < after.draw_counts.len() implies (#[trigger] after.draw_counts[k])
        + spare <= u32::MAX by {
        if k < table.draw_counts.len() {
            assert(table.draw_counts[k] + (count + 1 + spare) <= u32::MAX);
        }
    }
}

/// An emission on this many qubits, one subsystem per qubit, with consecutive draws.
fn emission_of(
    dist: DistKey,
    start: u32,
    width: usize,
    direction: Direction,
    adjoint: bool,
) -> (emit: Emit)
    requires
        start + width <= u32::MAX,
    ensures
        emit@ == (EmitModel {
            direction: Some(direction),
            partition: singleton_parts(width as nat),
            parts: Seq::new(
                width as nat,
                |i: int| EmitPart { dist, draw: (start + i) as u32, adjoint },
            ),
        }),
{
    let mut parts: Vec<EmitPart> = Vec::new();
    let mut i: usize = 0;
    while i < width
        invariant
            i <= width,
            start + width <= u32::MAX,
            parts@.len() == i,
            forall|k: int|
                0 <= k < i ==> #[trigger] parts@[k] == (EmitPart {
                    dist,
                    draw: (start + k) as u32,
                    adjoint,
                }),
        decreases width - i,
    {
        parts.push(EmitPart { dist, draw: start + i as u32, adjoint });
        i += 1;
    }
    let emit = Emit {
        direction: Some(direction),
        partition: Partition::singletons(width),
        parts,
    };
    assert(emit@.parts =~= Seq::new(
        width as nat,
        |i: int| EmitPart { dist, draw: (start + i) as u32, adjoint },
    ));
    emit
}

/// Turn a resolved box into its emissions, each tagged with where it belongs.
///
/// A twirl yields two, the inverse pair, sharing one table key and its draws, with opposite directions, on the
/// *dressing* edge. A basis change or noise injection yields one, on the edge its own placement or site names
/// and **not** the dressing edge.
fn build_emissions(
    resolved: &ResolvedBox,
    width: usize,
    table: &mut DistributionTable,
    Ghost(spare): Ghost<nat>,
) -> (placed: Vec<Placed>)
    requires
        old(table).wf(),
        roomy(old(table)@, 3 * (width as nat + 1) + spare),
    ensures
        final(table).wf(),
        placed_model(placed@) == emissions_of(resolved@, width as nat, old(table)@).placed,
        final(table)@ == emissions_of(resolved@, width as nat, old(table)@).table,
        roomy(final(table)@, spare),
        all_cover(placed_model(placed@), width as nat),
{
    let ghost start = Emitting { placed: Seq::empty(), table: table@ };
    let edge = match resolved.dressing {
        Some(Dressing::Right) => Direction::Right,
        _ => Direction::Left,
    };
    let mut placed: Vec<Placed> = Vec::new();
    assert(placed_model(placed@) =~= Seq::<PlacedModel>::empty());
    let ghost w = width as nat;
    if let Some(twirl) = &resolved.twirl {
        let entry = DistEntry::Distribution(twirl.distribution);
        let (dist, first) = alloc_draws(table, entry, width, Ghost(2 * (w + 1) + spare));
        placed.push(
            Placed {
                emit: emission_of(dist, first, width, Direction::Left, edge != Direction::Left),
                edge,
                depth: DEPTH_TWIRL,
            },
        );
        placed.push(
            Placed {
                emit: emission_of(dist, first, width, Direction::Right, edge != Direction::Right),
                edge,
                depth: DEPTH_TWIRL,
            },
        );
    }
    let ghost twirled = with_twirl(start, resolved@.twirl, w, edge);
    proof {
        assert(placed_model(placed@) =~= twirled.placed);
        assert(table@ == twirled.table);
        assert(roomy(table@, 2 * (w + 1) + spare));
    }
    if let Some(basis) = &resolved.change_basis {
        let entry = DistEntry::Basis { mode: basis.mode, ref_id: basis.ref_id.clone() };
        let direction = Direction::from(basis.placement);
        let (dist, first) = alloc_draws(table, entry, width, Ghost(w + 1 + spare));
        let depth = match basis.origin {
            BasisOrigin::ChangeBasis => DEPTH_BASIS,
            BasisOrigin::InjectLocalClifford => DEPTH_INJECTION,
        };
        placed.push(
            Placed { emit: emission_of(dist, first, width, direction, false), edge: direction, depth },
        );
    }
    let ghost based = with_basis(twirled, resolved@.change_basis, w);
    proof {
        assert(placed_model(placed@) =~= based.placed);
        assert(roomy(table@, w + 1 + spare));
    }
    if let Some(noise) = &resolved.inject_noise {
        let modifier = match &noise.modifier {
            Some(modifier) => Some(modifier.clone()),
            None => None,
        };
        let entry = DistEntry::Noise { reference: noise.reference.clone(), modifier };
        let direction = Direction::from(noise.site);
        let (dist, first) = alloc_draws(table, entry, width, Ghost(spare));
        placed.push(
            Placed {
                emit: emission_of(dist, first, width, direction, false),
                edge: direction,
                depth: DEPTH_INJECTION,
            },
        );
    }
    proof {
        assert(placed_model(placed@) =~= with_noise(based, resolved@.inject_noise, w).placed);
    }
    placed
}

// --- Writing ---------------------------------------------------------------------------------------

/// The role of an emission.
fn role(placed: &Placed) -> (role: Role)
    ensures
        role == role_of(placed@),
{
    let facing = match placed.emit.direction {
        Some(direction) => direction == placed.edge,
        None => false,
    };
    if placed.depth >= DEPTH_BASIS {
        Role::Outer
    } else if facing {
        Role::Facing
    } else {
        Role::Propagating
    }
}

/// Write emissions of one depth, in the order they were made.
fn write_depth(
    out: &mut Circuit,
    placed: &Vec<Placed>,
    edge: Direction,
    role_wanted: Role,
    depth: u8,
    qargs: &Vec<usize>,
)
    requires
        old(out)@.wf(),
        old(out)@.fresh(),
        wires_below(qargs@, old(out)@.num_qubits),
        all_cover(placed_model(placed@), qargs@.len()),
    ensures
        final(out)@ == with_emissions(
            old(out)@,
            at_depth(placed_model(placed@), edge, role_wanted, depth),
            qargs@,
        ),
        final(out)@.wf(),
        final(out)@.fresh(),
        final(out)@.num_qubits == old(out)@.num_qubits,
        final(out)@.num_clbits == old(out)@.num_clbits,
{
    let ghost before = out@;
    let ghost model = placed_model(placed@);
    let none: Vec<usize> = Vec::new();
    assert(none@ =~= Seq::<usize>::empty());
    let mut i: usize = 0;
    assert(model.take(0) =~= Seq::<PlacedModel>::empty());
    proof {
        lemma_singletons_are_a_partition(qargs.len());
    }
    while i < placed.len()
        invariant
            i <= placed.len(),
            model == placed_model(placed@),
            none@ == Seq::<usize>::empty(),
            total(singleton_parts(qargs@.len())) == qargs@.len(),
            wires_below(qargs@, before.num_qubits),
            all_cover(model, qargs@.len()),
            out@ == with_emissions(
                before,
                at_depth(model.take(i as int), edge, role_wanted, depth),
                qargs@,
            ),
            out@.wf(),
            out@.fresh(),
            out@.num_qubits == before.num_qubits,
            out@.num_clbits == before.num_clbits,
        decreases placed.len() - i,
    {
        let one = &placed[i];
        let ghost known = at_depth(model.take(i as int), edge, role_wanted, depth);
        proof {
            assert(model[i as int] == one@);
            assert(model.take(i + 1).drop_last() =~= model.take(i as int));
            assert(model.take(i + 1).last() == one@);
        }
        if one.edge == edge && role(one) == role_wanted && one.depth == depth {
            let params: Vec<Param> = Vec::new();
            assert(params_model(params@) =~= Seq::<ParamModel>::empty());
            proof {
                assert(known.push(one@.emit).drop_last() =~= known);
                assert(known.push(one@.emit).last() == one@.emit);
            }
            append(
                out,
                Operation::Emit(one.emit.clone()),
                params,
                qargs.as_slice(),
                none.as_slice(),
            );
        }
        i += 1;
    }
    assert(model.take(i as int) =~= model);
}

proof fn lemma_with_emissions(
    out: CircuitModel,
    first: Seq<EmitModel>,
    second: Seq<EmitModel>,
    qargs: Seq<usize>,
)
    ensures
        with_emissions(with_emissions(out, first, qargs), second, qargs) == with_emissions(
            out,
            first + second,
            qargs,
        ),
    decreases second.len(),
{
    if second.len() == 0 {
        assert(first + second =~= first);
    } else {
        lemma_with_emissions(out, first, second.drop_last(), qargs);
        assert((first + second).drop_last() =~= first + second.drop_last());
        assert((first + second).last() == second.last());
    }
}

/// Write the emissions that have a role on one edge of a box, on `qargs`.
///
/// Every emission of a box covers that box's full width, so they all land on the same wires: the box's own, in
/// whichever frame is being written into.
fn write_emissions(
    out: &mut Circuit,
    placed: &Vec<Placed>,
    edge: Direction,
    role_wanted: Role,
    qargs: &Vec<usize>,
)
    requires
        old(out)@.wf(),
        old(out)@.fresh(),
        wires_below(qargs@, old(out)@.num_qubits),
        all_cover(placed_model(placed@), qargs@.len()),
    ensures
        final(out)@ == with_emissions(
            old(out)@,
            chosen(placed_model(placed@), edge, role_wanted),
            qargs@,
        ),
        final(out)@.wf(),
        final(out)@.fresh(),
        final(out)@.num_qubits == old(out)@.num_qubits,
        final(out)@.num_clbits == old(out)@.num_clbits,
{
    let ghost before = out@;
    let ghost model = placed_model(placed@);
    let ghost near = at_depth(model, edge, role_wanted, DEPTH_TWIRL);
    let ghost middle = at_depth(model, edge, role_wanted, DEPTH_INJECTION);
    let ghost far = at_depth(model, edge, role_wanted, DEPTH_BASIS);
    match edge {
        Direction::Left => {
            write_depth(out, placed, edge, role_wanted, DEPTH_BASIS, qargs);
            write_depth(out, placed, edge, role_wanted, DEPTH_INJECTION, qargs);
            write_depth(out, placed, edge, role_wanted, DEPTH_TWIRL, qargs);
            proof {
                lemma_with_emissions(before, far, middle, qargs@);
                lemma_with_emissions(before, far + middle, near, qargs@);
            }
        },
        Direction::Right => {
            write_depth(out, placed, edge, role_wanted, DEPTH_TWIRL, qargs);
            write_depth(out, placed, edge, role_wanted, DEPTH_INJECTION, qargs);
            write_depth(out, placed, edge, role_wanted, DEPTH_BASIS, qargs);
            proof {
                lemma_with_emissions(before, near, middle, qargs@);
                lemma_with_emissions(before, near + middle, far, qargs@);
            }
        },
    }
}

/// Write a collect box, with an empty body for absorption to fill in.
fn write_collect(
    out: &mut Circuit,
    synthesizer: SynthesizerType,
    qargs: &Vec<usize>,
    cargs: &Vec<usize>,
)
    requires
        old(out)@.wf(),
        old(out)@.fresh(),
        wires_below(qargs@, old(out)@.num_qubits),
        wires_below(cargs@, old(out)@.num_clbits),
    ensures
        final(out)@ == with_box(
            old(out)@,
            collect_box(box_collect(synthesizer, qargs@.len())),
            CircuitModel::bare(qargs@.len(), cargs@.len()),
            qargs@,
            cargs@,
        ),
        final(out)@.wf(),
        final(out)@.fresh(),
        final(out)@.num_qubits == old(out)@.num_qubits,
        final(out)@.num_clbits == old(out)@.num_clbits,
{
    let width: usize = qargs.len();
    let mut parts: Vec<CollectPart> = Vec::new();
    let mut p: usize = 0;
    while p < width
        invariant
            p <= width,
            parts@.len() == p,
            forall|k: int| 0 <= k < p ==> #[trigger] parts@[k] == (CollectPart { synthesizer }),
        decreases width - p,
    {
        parts.push(CollectPart { synthesizer });
        p += 1;
    }
    // One subsystem per qubit: nothing here samples a box's qubits jointly.
    let collect = Collect { partition: Partition::singletons(width), parts };
    assert(collect@.parts =~= box_collect(synthesizer, width as nat).parts);
    let ghost said = collect@;
    let mut annotations: Vec<Annotation> = Vec::new();
    annotations.push(Annotation::Collect(collect));
    assert(annotations_model(annotations@) =~= seq![AnnotationModel::Collect(said)]);
    write_box(
        out,
        new_dag_body(width, cargs.len(), 0),
        annotations,
        None,
        qargs.as_slice(),
        cargs.as_slice(),
    );
}

/// The annotations of a box that this pass does not act on.
fn carried_annotations(annotations: &Vec<Annotation>) -> (rest: Vec<Annotation>)
    ensures
        annotations_model(rest@) == carried(annotations_model(annotations@)),
{
    let ghost model = annotations_model(annotations@);
    let mut rest: Vec<Annotation> = Vec::new();
    let mut i: usize = 0;
    assert(model.take(0) =~= Seq::<AnnotationModel>::empty());
    assert(annotations_model(rest@) =~= Seq::<AnnotationModel>::empty());
    while i < annotations.len()
        invariant
            i <= annotations.len(),
            model == annotations_model(annotations@),
            annotations_model(rest@) == carried(model.take(i as int)),
        decreases annotations.len() - i,
    {
        let ghost known = annotations_model(rest@);
        proof {
            assert(model[i as int] == annotations@[i as int]@);
            assert(model.take(i + 1).drop_last() =~= model.take(i as int));
            assert(model.take(i + 1).last() == model[i as int]);
        }
        if annotation_kind(&annotations[i]).is_none() {
            rest.push(annotations[i].clone());
            assert(annotations_model(rest@) =~= known.push(model[i as int]));
        }
        i += 1;
    }
    assert(model.take(i as int) =~= model);
    rest
}

// --- Sweeping --------------------------------------------------------------------------------------

/// Positions as numbers.
pub open spec fn ints(nodes: Seq<usize>) -> Seq<int> {
    nodes.map_values(|node: usize| node as int)
}

/// Sweep a body, from its start or from its end, telling of each instruction whether it moves there easily.
fn sweep(body: &Circuit, from_end: bool) -> (easily: Vec<bool>)
    requires
        body@.wf(),
    ensures
        easily@.len() == body@.ops.len(),
        forall|k: int|
            0 <= k < easily@.len() ==> #[trigger] easily@[k] == swept_easily(
                (if from_end {
                    body@.ops.reverse()
                } else {
                    body@.ops
                }),
                k,
            ),
{
    let ghost run = if from_end {
        body@.ops.reverse()
    } else {
        body@.ops
    };
    let count: usize = body.ops.len();
    let mut easily: Vec<bool> = Vec::new();
    let mut poison = IndexSet::new();
    let mut k: usize = 0;
    while k < count
        invariant
            k <= count,
            count == body@.ops.len(),
            count == body.ops@.len(),
            run == (if from_end {
                body@.ops.reverse()
            } else {
                body@.ops
            }),
            poison@ == poisoned(run, k as nat),
            easily@.len() == k,
            forall|j: int| 0 <= j < k ==> #[trigger] easily@[j] == swept_easily(run, j),
        decreases count - k,
    {
        let at: usize = if from_end {
            count - 1 - k
        } else {
            k
        };
        let inst = &body.ops[at];
        assert(run[k as int] == inst@);
        let gate = match inst.op {
            Operation::Gate(_) => true,
            _ => false,
        };
        let free = gate && inst.qubits.len() == 1 && !poison.contains(inst.qubits[0]);
        if !free {
            extend_set(&mut poison, &inst.qubits);
        }
        easily.push(free);
        k += 1;
    }
    easily
}

/// Sweep a box body from the dressing edge, splitting what could be absorbed from the rest.
///
/// Classification only, writing nothing: it decides which side of the twirl point a gate lands on.
/// Absorbability is **per qubit**. A single-qubit gate on an untouched wire folds into the dressing even if an
/// entangler sits before it elsewhere in the body, while what an instruction that stays is on cannot be crossed.
fn classify_body(body: &Circuit, dressing: Option<Dressing>) -> (sides: (Vec<usize>, Vec<usize>))
    requires
        body@.wf(),
    ensures
        ints(sides.0@) == side(body@.ops, dressing, body@.ops.len(), true),
        ints(sides.1@) == side(body@.ops, dressing, body@.ops.len(), false),
{
    let ghost ops = body@.ops;
    let from_end = match dressing {
        Some(Dressing::Right) => true,
        _ => false,
    };
    let easily = sweep(body, from_end);
    let count: usize = body.ops.len();
    let mut near: Vec<usize> = Vec::new();
    let mut far: Vec<usize> = Vec::new();
    let mut i: usize = 0;
    assert(ints(near@) =~= Seq::<int>::empty());
    assert(ints(far@) =~= Seq::<int>::empty());
    while i < count
        invariant
            i <= count,
            count == ops.len(),
            easily@.len() == count,
            from_end == (dressing == Some(Dressing::Right)),
            forall|k: int|
                0 <= k < easily@.len() ==> #[trigger] easily@[k] == swept_easily(
                    (if from_end {
                        ops.reverse()
                    } else {
                        ops
                    }),
                    k,
                ),
            ints(near@) == side(ops, dressing, i as nat, true),
            ints(far@) == side(ops, dressing, i as nat, false),
        decreases count - i,
    {
        let at: usize = if from_end {
            count - 1 - i
        } else {
            i
        };
        let ghost known_near = ints(near@);
        let ghost known_far = ints(far@);
        if dressing.is_some() && easily[at] {
            near.push(i);
            assert(ints(near@) =~= known_near.push(i as int));
        } else {
            far.push(i);
            assert(ints(far@) =~= known_far.push(i as int));
        }
        i += 1;
    }
    (near, far)
}

// --- Walking ---------------------------------------------------------------------------------------

/// Whether a frame gives a scope's wires distinct places in a circuit.
pub open spec fn frame_fits(frame: Frame, num_qubits: nat, num_clbits: nat, out: CircuitModel) -> bool {
    &&& frame.qubits.len() == num_qubits
    &&& frame.clbits.len() == num_clbits
    &&& wires_below(frame.qubits, out.num_qubits)
    &&& wires_below(frame.clbits, out.num_clbits)
}

/// Whether a circuit can be appended to.
pub open spec fn open_circuit(out: CircuitModel) -> bool {
    out.wf() && out.fresh()
}

/// Whether a circuit is on the same wires as another.
pub open spec fn same_wires(one: CircuitModel, other: CircuitModel) -> bool {
    one.num_qubits == other.num_qubits && one.num_clbits == other.num_clbits
}

proof fn lemma_through_below(frame: Seq<usize>, wires: Seq<usize>, limit: nat)
    requires
        wires_below(frame, limit),
        wires_below(wires, frame.len()),
    ensures
        wires_below(through(frame, wires), limit),
        through(frame, wires).len() == wires.len(),
{
    let said = through(frame, wires);
    assert forall|i: int, j: int| 0 <= i < said.len() && 0 <= j < said.len() && i != j implies said[i]
        != said[j] by {
        assert(wires[i] != wires[j]);
        assert(frame[wires[i] as int] != frame[wires[j] as int]);
    }
}

proof fn lemma_own_frame(num_qubits: nat, num_clbits: nat)
    requires
        num_qubits <= usize::MAX,
        num_clbits <= usize::MAX,
    ensures
        wires_below(own_frame(num_qubits, num_clbits).qubits, num_qubits),
        wires_below(own_frame(num_qubits, num_clbits).clbits, num_clbits),
{
}

proof fn lemma_walked_stops(
    circuit: CircuitModel,
    nodes: Seq<int>,
    draft: Draft,
    frame: Frame,
    nested: bool,
    k: int,
)
    requires
        0 <= k <= nodes.len(),
        walked(circuit, nodes.take(k), draft, frame, nested) is Err,
    ensures
        walked(circuit, nodes, draft, frame, nested) == walked(
            circuit,
            nodes.take(k),
            draft,
            frame,
            nested,
        ),
    decreases nodes.len() - k,
{
    if k == nodes.len() {
        assert(nodes.take(k) =~= nodes);
    } else {
        assert(nodes.take(k + 1).drop_last() =~= nodes.take(k));
        lemma_walked_stops(circuit, nodes, draft, frame, nested, k + 1);
    }
}

/// What a walk promises: what it was asked to write, in a circuit that can still be appended to, with the room
/// in the table that was set aside left.
spec fn delivered(
    said: Result<Draft, ErrorModel>,
    result: Result<(), SamplexError>,
    before: CircuitModel,
    out: CircuitModel,
    table: DistributionTable,
    spare: nat,
) -> bool {
    match said {
        Err(error) => result matches Err(reported) && reported@ == error,
        Ok(draft) => {
            &&& result is Ok
            &&& out == draft.out
            &&& table@ == draft.table
            &&& table.wf()
            &&& open_circuit(out)
            &&& same_wires(before, out)
            &&& roomy(table@, spare)
        },
    }
}

/// Write what the given instructions of a scope become.
fn walk(
    dag: &Circuit,
    nodes: &Vec<usize>,
    out: &mut Circuit,
    table: &mut DistributionTable,
    qubits: &Vec<usize>,
    clbits: &Vec<usize>,
    nested: bool,
    Ghost(spare): Ghost<nat>,
) -> (result: Result<(), SamplexError>)
    requires
        dag@.wf(),
        forall|k: int| 0 <= k < nodes@.len() ==> (#[trigger] nodes@[k]) < dag@.ops.len(),
        open_circuit(old(out)@),
        frame_fits(
            Frame { qubits: qubits@, clbits: clbits@ },
            dag@.num_qubits,
            dag@.num_clbits,
            old(out)@,
        ),
        old(table).wf(),
        roomy(old(table)@, demand_at(dag@.ops, ints(nodes@)) + spare),
    ensures
        delivered(
            walked(
                dag@,
                ints(nodes@),
                Draft { out: old(out)@, table: old(table)@ },
                Frame { qubits: qubits@, clbits: clbits@ },
                nested,
            ),
            result,
            old(out)@,
            final(out)@,
            *final(table),
            spare,
        ),
    decreases dag@, 0nat,
{
    let ghost list = ints(nodes@);
    let ghost start = Draft { out: out@, table: table@ };
    let ghost frame = Frame { qubits: qubits@, clbits: clbits@ };
    let mut i: usize = 0;
    assert(list.take(0) =~= Seq::<int>::empty());
    assert(list.skip(0) =~= list);
    while i < nodes.len()
        invariant
            i <= nodes.len(),
            dag@.wf(),
            list == ints(nodes@),
            forall|k: int| 0 <= k < nodes@.len() ==> (#[trigger] nodes@[k]) < dag@.ops.len(),
            start == (Draft { out: old(out)@, table: old(table)@ }),
            frame == (Frame { qubits: qubits@, clbits: clbits@ }),
            frame_fits(frame, dag@.num_qubits, dag@.num_clbits, start.out),
            walked(dag@, list.take(i as int), start, frame, nested) == Ok::<Draft, ErrorModel>(
                Draft { out: out@, table: table@ },
            ),
            open_circuit(out@),
            same_wires(start.out, out@),
            table.wf(),
            roomy(table@, demand_at(dag@.ops, list.skip(i as int)) + spare),
        decreases nodes.len() - i,
    {
        let at = nodes[i];
        let inst = &dag.ops[at];
        let ghost rest = demand_at(dag@.ops, list.skip(i + 1));
        proof {
            assert(list[i as int] == at);
            assert(list.take(i + 1).drop_last() =~= list.take(i as int));
            assert(list.take(i + 1).last() == at);
            assert(dag@.ops[at as int] == inst@);
            assert(inst@.wf(dag@.num_qubits, dag@.num_clbits));
            lemma_demand_first(dag@.ops, list.skip(i as int));
            assert(list.skip(i as int).drop_first() =~= list.skip(i + 1));
            assert(list.skip(i as int)[0] == at);
            lemma_through_below(qubits@, inst@.qubits, out@.num_qubits);
            lemma_through_below(clbits@, inst@.clbits, out@.num_clbits);
            assert(decreases_to!(dag@ => dag@.ops));
            assert(decreases_to!(dag@.ops => dag@.ops[at as int]));
        }
        match &inst.op {
            Operation::ControlFlow(op) => {
                proof {
                    lemma_walked_stops(dag@, list, start, frame, nested, i + 1);
                }
                if nested {
                    return Err(SamplexError::UnsupportedNestedControlFlow(op.name.clone()));
                }
                return Err(SamplexError::UnsupportedControlFlow(op.name.clone()));
            },
            Operation::Box { .. } => {
                match walk_box(inst, out, table, qubits, clbits, Ghost(dag@.num_qubits), Ghost(
                    dag@.num_clbits,
                ), Ghost(rest + spare)) {
                    Ok(_) => {},
                    Err(error) => {
                        proof {
                            lemma_walked_stops(dag@, list, start, frame, nested, i + 1);
                        }
                        return Err(error);
                    },
                }
            },
            _ => {
                let qargs = read_through(qubits, &inst.qubits);
                let cargs = read_through(clbits, &inst.clbits);
                append_instruction(out, inst, qargs.as_slice(), cargs.as_slice());
            },
        }
        i += 1;
    }
    assert(list.take(i as int) =~= list);
    assert(list.skip(i as int) =~= Seq::<int>::empty());
    Ok(())
}

/// All positions of a run.
fn all_positions(count: usize) -> (nodes: Vec<usize>)
    ensures
        nodes@ == Seq::new(count as nat, |i: int| i as usize),
        ints(nodes@) == positions(count as nat),
        forall|k: int| 0 <= k < nodes@.len() ==> (#[trigger] nodes@[k]) < count,
{
    let mut nodes: Vec<usize> = Vec::new();
    let mut i: usize = 0;
    while i < count
        invariant
            i <= count,
            nodes@.len() == i,
            forall|k: int| 0 <= k < i ==> #[trigger] nodes@[k] == k,
        decreases count - i,
    {
        nodes.push(i);
        i += 1;
    }
    assert(nodes@ =~= Seq::new(count as nat, |i: int| i as usize));
    assert(ints(nodes@) =~= positions(count as nat));
    nodes
}

/// Write one annotated box, or flatten it if it emits nothing and nothing else is on it.
fn walk_box(
    inst: &Instruction,
    out: &mut Circuit,
    table: &mut DistributionTable,
    qubits: &Vec<usize>,
    clbits: &Vec<usize>,
    Ghost(num_qubits): Ghost<nat>,
    Ghost(num_clbits): Ghost<nat>,
    Ghost(spare): Ghost<nat>,
) -> (result: Result<(), SamplexError>)
    requires
        inst@.op is Box,
        inst@.wf(num_qubits, num_clbits),
        open_circuit(old(out)@),
        frame_fits(
            Frame { qubits: qubits@, clbits: clbits@ },
            num_qubits,
            num_clbits,
            old(out)@,
        ),
        old(table).wf(),
        roomy(old(table)@, demand_of(inst@) + spare),
    ensures
        delivered(
            box_built(
                inst@,
                Draft { out: old(out)@, table: old(table)@ },
                Frame { qubits: qubits@, clbits: clbits@ },
            ),
            result,
            old(out)@,
            final(out)@,
            *final(table),
            spare,
        ),
    decreases inst@, 0nat,
{
    let ghost start = Draft { out: out@, table: table@ };
    let ghost frame = Frame { qubits: qubits@, clbits: clbits@ };
    let (annotations, duration) = match &inst.op {
        Operation::Box { annotations, duration } => (annotations, *duration),
        _ => {
            assert(false);
            return Ok(());
        },
    };
    let ghost model = annotations_model(annotations@);
    let resolved = match resolve_annotations(annotations.as_slice()) {
        Ok(resolved) => resolved,
        Err(error) => {
            return Err(SamplexError::Annotations(error));
        },
    };
    if inst.blocks.len() != 1 {
        return Err(SamplexError::BoxWithoutBody);
    }
    let foreign = carried_annotations(annotations);
    proof {
        lemma_through_below(qubits@, inst@.qubits, out@.num_qubits);
        lemma_through_below(clbits@, inst@.clbits, out@.num_clbits);
        assert(inst@.blocks[0] == inst.blocks@[0]@);
        assert(inst@.blocks[0].wf());
        assert(decreases_to!(inst@ => inst@.blocks));
        assert(decreases_to!(inst@.blocks => inst@.blocks[0]));
    }
    let qargs = read_through(qubits, &inst.qubits);
    let cargs = read_through(clbits, &inst.clbits);
    let body = &inst.blocks[0];
    let width: usize = inst.qubits.len();
    if !resolved.is_emitting() {
        if foreign.len() == 0 && duration.is_none() {
            let nodes = all_positions(body.ops.len());
            proof {
                lemma_demand_positions(body@.ops, body@.ops.len());
                assert(body@.ops.take(body@.ops.len() as int) =~= body@.ops);
                lemma_room_for_less(
                    table@,
                    demand_of(inst@) + spare,
                    demand_at(body@.ops, ints(nodes@)) + spare,
                );
                assert(annotations_model(foreign@).len() == foreign@.len());
            }
            return walk(body, &nodes, out, table, &qargs, &cargs, false, Ghost(spare));
        }
        let none: Vec<Placed> = Vec::new();
        proof {
            assert(placed_model(none@) =~= Seq::<PlacedModel>::empty());
            lemma_room_for_less(
                table@,
                demand_of(inst@) + spare,
                demand(body@.ops) + spare,
            );
            assert(annotations_model(foreign@).len() == foreign@.len());
        }
        let inner = content_body(body, None, &none, table, Ghost(spare))?;
        write_box(out, inner, foreign, duration, qargs.as_slice(), cargs.as_slice());
        return Ok(());
    }
    let placed = build_emissions(
        &resolved,
        width,
        table,
        Ghost(demand(body@.ops) + spare),
    );
    let synthesizer = match resolved.synthesizer {
        Some(synthesizer) => synthesizer,
        None => SynthesizerType::RzSx,
    };
    let inner = content_body(body, resolved.dressing, &placed, table, Ghost(spare))?;
    write_collect(out, synthesizer, &qargs, &cargs);
    write_emissions(out, &placed, Direction::Left, Role::Outer, &qargs);
    write_box(out, inner, foreign, duration, qargs.as_slice(), cargs.as_slice());
    write_emissions(out, &placed, Direction::Right, Role::Outer, &qargs);
    write_collect(out, synthesizer, &qargs, &cargs);
    Ok(())
}

proof fn lemma_room_for_less(table: DistributionTableModel, more: nat, less: nat)
    requires
        roomy(table, more),
        less <= more,
    ensures
        roomy(table, less),
{
    assert forall|k: int| 0 <= k < table.draw_counts.len() implies (#[trigger] table.draw_counts[k])
        + less <= u32::MAX by {
        assert(table.draw_counts[k] + more <= u32::MAX);
    }
}

/// Write a box's body as a circuit of its own, with the emissions that go inside at the twirl point.
fn content_body(
    body: &Circuit,
    dressing: Option<Dressing>,
    placed: &Vec<Placed>,
    table: &mut DistributionTable,
    Ghost(spare): Ghost<nat>,
) -> (result: Result<Circuit, SamplexError>)
    requires
        body@.wf(),
        all_cover(placed_model(placed@), body@.num_qubits),
        old(table).wf(),
        roomy(old(table)@, demand(body@.ops) + spare),
    ensures
        match content(body@, dressing, placed_model(placed@), old(table)@) {
            Err(error) => result matches Err(reported) && reported@ == error,
            Ok(draft) => {
                &&& result matches Ok(inner)
                &&& inner@ == draft.out
                &&& open_circuit(inner@)
                &&& same_wires(body@, inner@)
                &&& final(table)@ == draft.table
                &&& final(table).wf()
                &&& roomy(final(table)@, spare)
            },
        },
    decreases body@, 1nat,
{
    let ghost model = placed_model(placed@);
    let ghost ops = body@.ops;
    let (near, far) = classify_body(body, dressing);
    let qubits = all_positions(body.num_qubits);
    let clbits = all_positions(body.num_clbits);
    let ghost frame = own_frame(body@.num_qubits, body@.num_clbits);
    proof {
        lemma_own_frame(body@.num_qubits, body@.num_clbits);
        assert(qubits@ =~= frame.qubits);
        assert(clbits@ =~= frame.clbits);
        lemma_demand_sides(ops, dressing, ops.len());
        assert(ops.take(ops.len() as int) =~= ops);
        assert forall|k: int| 0 <= k < near@.len() implies (#[trigger] near@[k]) < ops.len() by {
            assert(ints(near@)[k] == near@[k]);
        }
        assert forall|k: int| 0 <= k < far@.len() implies (#[trigger] far@[k]) < ops.len() by {
            assert(ints(far@)[k] == far@[k]);
        }
    }
    let ghost near_need = demand_at(ops, ints(near@));
    let ghost far_need = demand_at(ops, ints(far@));
    let mut out = new_dag_body(body.num_qubits, body.num_clbits, body.ops.len());
    // A right dressing sweeps what it absorbs to the other end, so it is a suffix there.
    let easy_first = match dressing {
        Some(Dressing::Right) => false,
        _ => true,
    };
    if easy_first {
        walk(body, &near, &mut out, table, &qubits, &clbits, true, Ghost(far_need + spare))?;
    } else {
        proof {
            assert(roomy(table@, far_need + (near_need + spare)));
        }
    }
    write_emissions(&mut out, placed, Direction::Left, Role::Facing, &qubits);
    write_emissions(&mut out, placed, Direction::Left, Role::Propagating, &qubits);
    let ghost later = if easy_first {
        spare
    } else {
        near_need + spare
    };
    walk(body, &far, &mut out, table, &qubits, &clbits, true, Ghost(later))?;
    write_emissions(&mut out, placed, Direction::Right, Role::Propagating, &qubits);
    write_emissions(&mut out, placed, Direction::Right, Role::Facing, &qubits);
    if !easy_first {
        walk(body, &near, &mut out, table, &qubits, &clbits, true, Ghost(spare))?;
    }
    Ok(out)
}

/// Build the emission circuit for an annotated circuit, and the table its emissions refer to.
///
/// The result is over the same wires as the circuit it is built from.
pub fn build(dag: &Circuit) -> (result: Result<(Circuit, DistributionTable), SamplexError>)
    requires
        dag@.wf(),
        demand(dag@.ops) <= u32::MAX,
    ensures
        match built(dag@) {
            Err(error) => result matches Err(reported) && reported@ == error,
            Ok(draft) => {
                &&& result matches Ok((out, table))
                &&& out@ == draft.out
                &&& table@ == draft.table
                &&& out@.wf()
                &&& out@.fresh()
                &&& table.wf()
                &&& same_wires(dag@, out@)
                &&& uncollected(dag@) ==> valid(out@)
            },
        },
{
    let mut table = DistributionTable::new();
    let mut out = new_dag_body(dag.num_qubits, dag.num_clbits, dag.ops.len());
    let qubits = all_positions(dag.num_qubits);
    let clbits = all_positions(dag.num_clbits);
    let nodes = all_positions(dag.ops.len());
    let ghost frame = own_frame(dag@.num_qubits, dag@.num_clbits);
    proof {
        lemma_own_frame(dag@.num_qubits, dag@.num_clbits);
        assert(qubits@ =~= frame.qubits);
        assert(clbits@ =~= frame.clbits);
        lemma_demand_positions(dag@.ops, dag@.ops.len());
        assert(dag@.ops.take(dag@.ops.len() as int) =~= dag@.ops);
        assert(roomy(table@, demand_at(dag@.ops, ints(nodes@)) + 0));
    }
    walk(dag, &nodes, &mut out, &mut table, &qubits, &clbits, false, Ghost(0))?;
    proof {
        if uncollected(dag@) {
            lemma_built_is_valid(dag@);
        }
    }
    Ok((out, table))
}

// --- What building keeps ---------------------------------------------------------------------------

/// A twirl's two halves are one pair around one point: they stand on the dressing edge, against the content,
/// travel opposite ways, take the same draws of the same entry, and exactly the half that travels away from the
/// dressing is the adjoint.
pub proof fn lemma_twirl_is_an_inverse_pair(
    resolved: ResolvedBoxModel,
    width: nat,
    table: DistributionTableModel,
)
    requires
        resolved.twirl is Some,
        resolved.dressing is Some,
    ensures
        ({
            let placed = emissions_of(resolved, width, table).placed;
            let left = placed[0];
            let right = placed[1];
            let edge = dressing_edge(resolved.dressing->Some_0);
            &&& placed.len() >= 2
            &&& left.edge == edge && right.edge == edge
            &&& left.depth == DEPTH_TWIRL && right.depth == DEPTH_TWIRL
            &&& left.emit.direction == Some(Direction::Left)
            &&& right.emit.direction == Some(Direction::Right)
            &&& left.emit.partition == right.emit.partition
            &&& left.emit.parts.len() == width && right.emit.parts.len() == width
            &&& forall|i: int|
                #![trigger left.emit.parts[i]]
                0 <= i < width ==> {
                    &&& left.emit.parts[i].dist == right.emit.parts[i].dist
                    &&& left.emit.parts[i].draw == right.emit.parts[i].draw
                    &&& left.emit.parts[i].adjoint == (edge == Direction::Right)
                    &&& right.emit.parts[i].adjoint == (edge == Direction::Left)
                }
        }),
{
}

/// Draws are never handed out twice: what is drawn of an entry starts where the last drawing of it ended, and
/// drawing of one entry leaves every other's draws alone.
pub proof fn lemma_draws_are_fresh(
    table: DistributionTableModel,
    entry: DistEntryModel,
    count: nat,
    other: DistEntryModel,
)
    requires
        table.draw_counts.len() == table.entries.len(),
        table.entries.no_duplicates(),
        drawn(table, entry) + count <= u32::MAX,
    ensures
        drawn(with_draws(table, entry, count), entry) == drawn(table, entry) + count,
        other != entry ==> drawn(with_draws(table, entry, count), other) == drawn(table, other),
{
    let after = with_draws(table, entry, count);
    let slot = entry_slot(table.entries, entry) as int;
    before_after(table, entry);
    if table.entries.contains(entry) {
        assert(table.entries[slot] == entry);
    } else {
        assert(after.entries[table.entries.len() as int] == entry);
        assert(after.entries.contains(entry));
        let k = after.entries.index_of(entry);
        assert(after.entries[k] == entry);
        if k < table.entries.len() {
            assert(table.entries[k] == entry);
        }
    }
    if other != entry {
        if table.entries.contains(other) {
            let k = table.entries.index_of(other);
            assert(table.entries[k] == other);
            assert(after.entries[k] == other);
            assert(after.entries.contains(other));
            let j = after.entries.index_of(other);
            assert(after.entries[j] == other);
            if j < table.entries.len() {
                assert(table.entries[j] == other);
                assert(j == k);
            }
            assert(k != slot);
        } else if after.entries.contains(other) {
            let j = after.entries.index_of(other);
            assert(after.entries[j] == other);
            if j < table.entries.len() {
                assert(table.entries[j] == other);
            }
        }
    }
}

proof fn lemma_stays_poisoned(run: Seq<InstructionModel>, j: int, count: nat, qubit: usize)
    requires
        0 <= j < count <= run.len(),
        !swept_easily(run, j),
        run[j].qubits.contains(qubit),
    ensures
        poisoned(run, count).contains(qubit),
    decreases count,
{
    if j < count - 1 {
        lemma_stays_poisoned(run, j, (count - 1) as nat, qubit);
    }
}

/// Sweeping what a dressing could absorb to the dressing's edge moves nothing across anything on its wire: what
/// stays behind between a gate that is swept and that edge is not on its qubit.
pub proof fn lemma_sweep_crosses_nothing(
    ops: Seq<InstructionModel>,
    dressing: Dressing,
    swept: int,
    staying: int,
)
    requires
        0 <= swept < ops.len(),
        0 <= staying < ops.len(),
        easy(ops, Some(dressing), swept),
        !easy(ops, Some(dressing), staying),
        dressing == Dressing::Left ==> staying < swept,
        dressing == Dressing::Right ==> swept < staying,
    ensures
        ops[swept].qubits.len() == 1,
        !ops[staying].qubits.contains(ops[swept].qubits[0]),
{
    let qubit = ops[swept].qubits[0];
    match dressing {
        Dressing::Left => {
            if ops[staying].qubits.contains(qubit) {
                lemma_stays_poisoned(ops, staying, swept as nat, qubit);
            }
        },
        Dressing::Right => {
            let run = ops.reverse();
            let far = ops.len() - 1 - staying;
            let near = ops.len() - 1 - swept;
            assert(run[far] == ops[staying]);
            assert(run[near] == ops[swept]);
            if ops[staying].qubits.contains(qubit) {
                lemma_stays_poisoned(run, far, near as nat, qubit);
            }
        },
    }
}

/// Whether nothing in a circuit collects or emits yet, and every box is on some qubit.
pub open spec fn uncollected(circuit: CircuitModel) -> bool
    decreases circuit,
{
    forall|i: int| 0 <= i < circuit.ops.len() ==> uncollected_at(#[trigger] circuit.ops[i])
}

/// Whether an instruction is no emission and, if it is a box, is no collector, is on some qubit, and holds
/// neither.
pub open spec fn uncollected_at(inst: InstructionModel) -> bool
    decreases inst,
{
    &&& !(inst.op is Emit)
    &&& inst.op.is_box() ==> {
        &&& !inst.op.is_collector()
        &&& inst.qubits.len() > 0
        &&& inst.blocks.len() == 1 ==> uncollected(inst.blocks[0])
    }
}

proof fn lemma_first_collect_push(annotations: Seq<AnnotationModel>, last: AnnotationModel)
    requires
        first_collect(annotations) is None,
        !(last is Collect),
    ensures
        first_collect(annotations.push(last)) is None,
    decreases annotations.len(),
{
    let after = annotations.push(last);
    if annotations.len() == 0 {
        assert(after.drop_first() =~= Seq::<AnnotationModel>::empty());
        assert(first_collect(after.drop_first()) is None);
    } else {
        lemma_first_collect_push(annotations.drop_first(), last);
        assert(after.drop_first() =~= annotations.drop_first().push(last));
    }
}

proof fn lemma_first_collect_front(annotations: Seq<AnnotationModel>)
    requires
        first_collect(annotations) is None,
        annotations.len() > 0,
    ensures
        first_collect(annotations.drop_last()) is None,
        !(annotations.last() is Collect),
    decreases annotations.len(),
{
    if annotations.len() > 1 {
        lemma_first_collect_front(annotations.drop_first());
        assert(annotations.drop_last().drop_first() =~= annotations.drop_first().drop_last());
    }
}

proof fn lemma_carries_no_collect(annotations: Seq<AnnotationModel>)
    requires
        first_collect(annotations) is None,
    ensures
        first_collect(carried(annotations)) is None,
    decreases annotations.len(),
{
    if annotations.len() > 0 {
        lemma_first_collect_front(annotations);
        lemma_carries_no_collect(annotations.drop_last());
        if annotations.last().kind() is None {
            lemma_first_collect_push(carried(annotations.drop_last()), annotations.last());
        }
    }
}

/// Whether every one of some emissions is travelling.
spec fn all_travel(emits: Seq<EmitModel>) -> bool {
    forall|k: int| 0 <= k < emits.len() ==> travelling(#[trigger] emits[k])
}

/// Whether every one of some placed emissions is travelling.
spec fn placed_travel(placed: Seq<PlacedModel>) -> bool {
    forall|k: int| 0 <= k < placed.len() ==> travelling((#[trigger] placed[k]).emit)
}

proof fn lemma_chosen_travel(placed: Seq<PlacedModel>, edge: Direction, role: Role)
    requires
        placed_travel(placed),
    ensures
        all_travel(chosen(placed, edge, role)),
{
    lemma_depth_travels(placed, edge, role, DEPTH_TWIRL);
    lemma_depth_travels(placed, edge, role, DEPTH_INJECTION);
    lemma_depth_travels(placed, edge, role, DEPTH_BASIS);
    let near = at_depth(placed, edge, role, DEPTH_TWIRL);
    let middle = at_depth(placed, edge, role, DEPTH_INJECTION);
    let far = at_depth(placed, edge, role, DEPTH_BASIS);
    let (first, last) = match edge {
        Direction::Left => (far, near),
        Direction::Right => (near, far),
    };
    let all = chosen(placed, edge, role);
    assert forall|k: int| 0 <= k < all.len() implies travelling(#[trigger] all[k]) by {
        if k < first.len() {
            assert(all[k] == first[k]);
        } else if k < first.len() + middle.len() {
            assert(all[k] == middle[k - first.len()]);
        } else {
            assert(all[k] == last[k - first.len() - middle.len()]);
        }
    }
}

proof fn lemma_depth_travels(placed: Seq<PlacedModel>, edge: Direction, role: Role, depth: u8)
    requires
        placed_travel(placed),
    ensures
        all_travel(at_depth(placed, edge, role, depth)),
    decreases placed.len(),
{
    if placed.len() > 0 {
        let front = placed.drop_last();
        assert(placed_travel(front)) by {
            assert forall|k: int| 0 <= k < front.len() implies travelling((#[trigger] front[k]).emit) by {
                assert(placed[k] == front[k]);
            }
        }
        lemma_depth_travels(front, edge, role, depth);
        assert(travelling(placed[placed.len() - 1].emit));
        let before = at_depth(front, edge, role, depth);
        let after = at_depth(placed, edge, role, depth);
        assert forall|k: int| 0 <= k < after.len() implies travelling(#[trigger] after[k]) by {
            if k < before.len() {
                assert(after[k] == before[k]);
            }
        }
    }
}

proof fn lemma_emissions_travel(
    resolved: ResolvedBoxModel,
    width: nat,
    table: DistributionTableModel,
)
    requires
        width > 0,
    ensures
        placed_travel(emissions_of(resolved, width, table).placed),
{
}

proof fn lemma_valid_with(out: CircuitModel, inst: InstructionModel)
    requires
        valid(out),
        valid_at(inst),
    ensures
        valid(out.with(inst)),
{
    let after = out.with(inst);
    assert forall|i: int| 0 <= i < after.ops.len() implies valid_at(#[trigger] after.ops[i]) by {
        if i < out.ops.len() {
            assert(after.ops[i] == out.ops[i]);
        }
    }
}

proof fn lemma_emissions_stay_valid(out: CircuitModel, emits: Seq<EmitModel>, qargs: Seq<usize>)
    requires
        valid(out),
        all_travel(emits),
    ensures
        valid(with_emissions(out, emits, qargs)),
    decreases emits.len(),
{
    if emits.len() > 0 {
        let before = with_emissions(out, emits.drop_last(), qargs);
        let front = emits.drop_last();
        assert(all_travel(front)) by {
            assert forall|k: int| 0 <= k < front.len() implies travelling(#[trigger] front[k]) by {
                assert(emits[k] == front[k]);
            }
        }
        assert(travelling(emits[emits.len() - 1]));
        lemma_emissions_stay_valid(out, front, qargs);
        lemma_valid_with(
            before,
            next_instruction(
                before,
                OperationModel::Emit(emits.last()),
                Seq::empty(),
                Seq::empty(),
                qargs,
                Seq::empty(),
            ),
        );
    }
}

/// What building makes of a circuit in which nothing collects or emits yet is a valid emission circuit.
pub proof fn lemma_built_is_valid(dag: CircuitModel)
    requires
        dag.wf(),
        dag.num_qubits <= usize::MAX,
        dag.num_clbits <= usize::MAX,
        uncollected(dag),
    ensures
        built(dag) matches Ok(draft) ==> valid(draft.out),
{
    let frame = own_frame(dag.num_qubits, dag.num_clbits);
    let start = Draft {
        out: CircuitModel::bare(dag.num_qubits, dag.num_clbits),
        table: DistributionTableModel { entries: Seq::empty(), draw_counts: Seq::empty() },
    };
    lemma_own_frame(dag.num_qubits, dag.num_clbits);
    lemma_walked_is_valid(dag, positions(dag.ops.len()), start, frame, false);
}

proof fn lemma_walked_is_valid(
    circuit: CircuitModel,
    nodes: Seq<int>,
    draft: Draft,
    frame: Frame,
    nested: bool,
)
    requires
        circuit.wf(),
        uncollected(circuit),
        valid(draft.out),
        frame.qubits.len() <= usize::MAX,
    ensures
        walked(circuit, nodes, draft, frame, nested) matches Ok(after) ==> valid(after.out),
    decreases circuit, 0nat, nodes.len(),
{
    if nodes.len() > 0 && walked(circuit, nodes, draft, frame, nested) is Ok {
        lemma_walked_is_valid(circuit, nodes.drop_last(), draft, frame, nested);
        let before = walked(circuit, nodes.drop_last(), draft, frame, nested)->Ok_0;
        if 0 <= nodes.last() < circuit.ops.len() {
            let inst = circuit.ops[nodes.last()];
            assert(uncollected_at(inst));
            assert(inst.wf(circuit.num_qubits, circuit.num_clbits));
            match inst.op {
                OperationModel::ControlFlow(_) => {},
                OperationModel::Box { .. } => {
                    lemma_box_is_valid(inst, circuit.num_qubits, circuit.num_clbits, before, frame);
                },
                _ => {
                    lemma_valid_with(
                        before.out,
                        next_instruction(
                            before.out,
                            inst.op,
                            inst.params,
                            Seq::empty(),
                            through(frame.qubits, inst.qubits),
                            through(frame.clbits, inst.clbits),
                        ),
                    );
                },
            }
        }
    }
}

proof fn lemma_box_is_valid(
    inst: InstructionModel,
    num_qubits: nat,
    num_clbits: nat,
    draft: Draft,
    frame: Frame,
)
    requires
        inst.op is Box,
        inst.wf(num_qubits, num_clbits),
        uncollected_at(inst),
        valid(draft.out),
        frame.qubits.len() <= usize::MAX,
    ensures
        box_built(inst, draft, frame) matches Ok(after) ==> valid(after.out),
    decreases inst, 0nat, 0nat,
{
    if box_built(inst, draft, frame) is Ok {
        let annotations = inst.op->annotations;
        let duration = inst.op->duration;
        let resolved = resolution(annotations);
        let width = inst.qubits.len();
        let body = inst.blocks[0];
        let qargs = through(frame.qubits, inst.qubits);
        let cargs = through(frame.clbits, inst.clbits);
        let content_op = OperationModel::Box { annotations: carried(annotations), duration };
        lemma_carries_no_collect(annotations);
        assert(body.wf());
        assert(content_op.is_content_box());
        if !resolved.emits() {
            if carried(annotations).len() == 0 && duration is None {
                lemma_walked_is_valid(
                    body,
                    positions(body.ops.len()),
                    draft,
                    Frame { qubits: qargs, clbits: cargs },
                    false,
                );
            } else {
                lemma_content_is_valid(body, None, Seq::empty(), draft.table);
                let inner = content(body, None, Seq::empty(), draft.table)->Ok_0;
                lemma_content_box_is_valid(draft.out, content_op, inner.out, qargs, cargs);
            }
        } else {
            let emitting = emissions_of(resolved, width, draft.table);
            lemma_emissions_travel(resolved, width, draft.table);
            lemma_content_is_valid(body, resolved.dressing, emitting.placed, emitting.table);
            let inner = content(
                body,
                resolved.dressing,
                emitting.placed,
                emitting.table,
            )->Ok_0;
            let collect = box_collect(box_synthesizer(resolved), width);
            let empty = CircuitModel::bare(qargs.len(), cargs.len());
            lemma_collect_is_valid(draft.out, box_synthesizer(resolved), empty, qargs, cargs);
            let opened = with_box(draft.out, collect_box(collect), empty, qargs, cargs);
            let outer_left = chosen(emitting.placed, Direction::Left, Role::Outer);
            let outer_right = chosen(emitting.placed, Direction::Right, Role::Outer);
            lemma_chosen_travel(emitting.placed, Direction::Left, Role::Outer);
            lemma_chosen_travel(emitting.placed, Direction::Right, Role::Outer);
            lemma_emissions_stay_valid(opened, outer_left, qargs);
            let left = with_emissions(opened, outer_left, qargs);
            lemma_content_box_is_valid(left, content_op, inner.out, qargs, cargs);
            let middle = with_box(left, content_op, inner.out, qargs, cargs);
            lemma_emissions_stay_valid(middle, outer_right, qargs);
            let right = with_emissions(middle, outer_right, qargs);
            lemma_collect_is_valid(right, box_synthesizer(resolved), empty, qargs, cargs);
        }
    }
}

proof fn lemma_content_box_is_valid(
    out: CircuitModel,
    op: OperationModel,
    body: CircuitModel,
    qargs: Seq<usize>,
    cargs: Seq<usize>,
)
    requires
        valid(out),
        op.is_content_box(),
        valid(body),
    ensures
        valid(with_box(out, op, body, qargs, cargs)),
{
    let inst = next_instruction(out, op, Seq::empty(), seq![body], qargs, cargs);
    assert(inst.blocks[0] == body);
    lemma_valid_with(out, inst);
}

proof fn lemma_collect_is_valid(
    out: CircuitModel,
    synthesizer: SynthesizerType,
    body: CircuitModel,
    qargs: Seq<usize>,
    cargs: Seq<usize>,
)
    requires
        valid(out),
        0 < qargs.len() <= usize::MAX,
        body.ops.len() == 0,
    ensures
        valid(
            with_box(out, collect_box(box_collect(synthesizer, qargs.len())), body, qargs, cargs),
        ),
{
    let collect = box_collect(synthesizer, qargs.len());
    let inst = next_instruction(out, collect_box(collect), Seq::empty(), seq![body], qargs, cargs);
    assert(inst.op.collect() == Some(collect));
    assert(inst.blocks[0] == body);
    lemma_singletons_are_a_partition(qargs.len() as usize);
    lemma_valid_with(out, inst);
}

proof fn lemma_content_is_valid(
    body: CircuitModel,
    dressing: Option<Dressing>,
    placed: Seq<PlacedModel>,
    table: DistributionTableModel,
)
    requires
        body.wf(),
        body.num_qubits <= usize::MAX,
        uncollected(body),
        placed_travel(placed),
    ensures
        content(body, dressing, placed, table) matches Ok(after) ==> valid(after.out),
    decreases body, 1nat, 0nat,
{
    let frame = own_frame(body.num_qubits, body.num_clbits);
    let near = side(body.ops, dressing, body.ops.len(), true);
    let far = side(body.ops, dressing, body.ops.len(), false);
    let start = Draft { out: CircuitModel::bare(body.num_qubits, body.num_clbits), table };
    lemma_chosen_travel(placed, Direction::Left, Role::Facing);
    lemma_chosen_travel(placed, Direction::Left, Role::Propagating);
    lemma_chosen_travel(placed, Direction::Right, Role::Propagating);
    lemma_chosen_travel(placed, Direction::Right, Role::Facing);
    if content(body, dressing, placed, table) is Ok {
        let first = if dressing == Some(Dressing::Right) {
            start
        } else {
            lemma_walked_is_valid(body, near, start, frame, true);
            walked(body, near, start, frame, true)->Ok_0
        };
        let facing = chosen(placed, Direction::Left, Role::Facing);
        let leaving = chosen(placed, Direction::Left, Role::Propagating);
        lemma_emissions_stay_valid(first.out, facing, frame.qubits);
        let half = with_emissions(first.out, facing, frame.qubits);
        lemma_emissions_stay_valid(half, leaving, frame.qubits);
        let opened = Draft { out: with_emissions(half, leaving, frame.qubits), ..first };
        lemma_walked_is_valid(body, far, opened, frame, true);
        let middle = walked(body, far, opened, frame, true)->Ok_0;
        let parting = chosen(placed, Direction::Right, Role::Propagating);
        let turned = chosen(placed, Direction::Right, Role::Facing);
        lemma_emissions_stay_valid(middle.out, parting, frame.qubits);
        let most = with_emissions(middle.out, parting, frame.qubits);
        lemma_emissions_stay_valid(most, turned, frame.qubits);
        let closed = Draft { out: with_emissions(most, turned, frame.qubits), ..middle };
        if dressing == Some(Dressing::Right) {
            lemma_walked_is_valid(body, near, closed, frame, true);
        }
    }
}

/// A box that emits yields exactly two collectors in the scope it stands in, one on either side, however little
/// is between them.
pub proof fn lemma_emitting_box_has_two_collectors(
    inst: InstructionModel,
    draft: Draft,
    frame: Frame,
    path: Seq<usize>,
)
    requires
        inst.op is Box,
        !inst.op.is_collector(),
        resolution(inst.op->annotations).emits(),
        box_built(inst, draft, frame) is Ok,
    ensures
        own_collectors(box_built(inst, draft, frame)->Ok_0.out.ops, path).len() == own_collectors(
            draft.out.ops,
            path,
        ).len() + 2,
{
    let annotations = inst.op->annotations;
    let resolved = resolution(annotations);
    let width = inst.qubits.len();
    let qargs = through(frame.qubits, inst.qubits);
    let cargs = through(frame.clbits, inst.clbits);
    let content_op = OperationModel::Box {
        annotations: carried(annotations),
        duration: inst.op->duration,
    };
    let emitting = emissions_of(resolved, width, draft.table);
    let inner = content(inst.blocks[0], resolved.dressing, emitting.placed, emitting.table)->Ok_0;
    let collect = box_collect(box_synthesizer(resolved), width);
    let empty = CircuitModel::bare(qargs.len(), cargs.len());
    let opened = with_box(draft.out, collect_box(collect), empty, qargs, cargs);
    let outer_left = chosen(emitting.placed, Direction::Left, Role::Outer);
    let outer_right = chosen(emitting.placed, Direction::Right, Role::Outer);
    let left = with_emissions(opened, outer_left, qargs);
    let middle = with_box(left, content_op, inner.out, qargs, cargs);
    let right = with_emissions(middle, outer_right, qargs);
    let after = with_box(right, collect_box(collect), empty, qargs, cargs);
    lemma_carries_no_collect(annotations);
    assert(collect_box(collect).collect() == Some(collect));
    assert(opened.ops.drop_last() =~= draft.out.ops);
    lemma_emissions_collect_nothing(opened, outer_left, qargs, path);
    assert(middle.ops.drop_last() =~= left.ops);
    lemma_emissions_collect_nothing(middle, outer_right, qargs, path);
    assert(after.ops.drop_last() =~= right.ops);
}

/// A box that emits is written as one of those that come to share their collectors when they are in a row: what it
/// adds to the scope is a twirled box on its qubits, with its synthesizer, and what was there stays ahead of it.
pub proof fn lemma_emitting_box_is_a_twirled_box(inst: InstructionModel, draft: Draft, frame: Frame)
    requires
        inst.op is Box,
        !inst.op.is_collector(),
        resolution(inst.op->annotations).emits(),
        box_built(inst, draft, frame) is Ok,
    ensures
        ({
            let before = draft.out.ops;
            let after = box_built(inst, draft, frame)->Ok_0.out.ops;
            &&& before.len() <= after.len()
            &&& after.take(before.len() as int) == before
            &&& twirled_box(
                after,
                seq![before.len() as int, after.len() as int],
                0,
                through(frame.qubits, inst.qubits).to_set(),
                box_synthesizer(resolution(inst.op->annotations)),
            )
        }),
{
    let annotations = inst.op->annotations;
    let resolved = resolution(annotations);
    let width = inst.qubits.len();
    let qargs = through(frame.qubits, inst.qubits);
    let cargs = through(frame.clbits, inst.clbits);
    let content_op = OperationModel::Box {
        annotations: carried(annotations),
        duration: inst.op->duration,
    };
    let emitting = emissions_of(resolved, width, draft.table);
    let inner = content(inst.blocks[0], resolved.dressing, emitting.placed, emitting.table)->Ok_0;
    let collect = box_collect(box_synthesizer(resolved), width);
    let empty = CircuitModel::bare(qargs.len(), cargs.len());
    let opened = with_box(draft.out, collect_box(collect), empty, qargs, cargs);
    let outer_left = chosen(emitting.placed, Direction::Left, Role::Outer);
    let outer_right = chosen(emitting.placed, Direction::Right, Role::Outer);
    let left = with_emissions(opened, outer_left, qargs);
    let middle = with_box(left, content_op, inner.out, qargs, cargs);
    let right = with_emissions(middle, outer_right, qargs);
    let after = with_box(right, collect_box(collect), empty, qargs, cargs);
    let from = draft.out.ops.len() as int;
    let to = after.ops.len() as int;
    lemma_carries_no_collect(annotations);
    assert(collect_box(collect).collect() == Some(collect));
    lemma_emissions_follow(opened, outer_left, qargs);
    lemma_emissions_follow(middle, outer_right, qargs);
    assert forall|i: int| 0 <= i < middle.ops.len() implies (#[trigger] after.ops[i])
        == middle.ops[i] by {
        assert(right.ops[i] == middle.ops[i]);
    }
    assert forall|i: int| 0 <= i < opened.ops.len() implies (#[trigger] after.ops[i])
        == opened.ops[i] by {
        assert(left.ops[i] == opened.ops[i]);
        assert(middle.ops[i] == left.ops[i]);
    }
    assert(after.ops.take(from) =~= draft.out.ops);
    assert(after.ops[from] == opened.ops[from]);
    let at = left.ops.len() as int;
    assert(after.ops[at] == middle.ops[at]);
    assert(after.ops[at].op == content_op && after.ops[at].qubits == qargs);
    assert forall|i: int| from < i < to - 1 implies !(#[trigger] after.ops[i]).op.is_collector() by {
        if i < at {
            assert(after.ops[i] == middle.ops[i]);
            assert(middle.ops[i] == left.ops[i]);
        } else if i > at {
            assert(after.ops[i] == right.ops[i]);
        }
    }
}

/// Emissions are appended, and nothing else.
proof fn lemma_emissions_follow(out: CircuitModel, emits: Seq<EmitModel>, qargs: Seq<usize>)
    ensures
        ({
            let after = with_emissions(out, emits, qargs);
            &&& after.ops.len() == out.ops.len() + emits.len()
            &&& forall|i: int| 0 <= i < out.ops.len() ==> (#[trigger] after.ops[i]) == out.ops[i]
            &&& forall|i: int|
                out.ops.len() <= i < after.ops.len() ==> (#[trigger] after.ops[i]).op is Emit
        }),
    decreases emits.len(),
{
    if emits.len() > 0 {
        lemma_emissions_follow(out, emits.drop_last(), qargs);
    }
}

proof fn lemma_emissions_collect_nothing(
    out: CircuitModel,
    emits: Seq<EmitModel>,
    qargs: Seq<usize>,
    path: Seq<usize>,
)
    ensures
        own_collectors(with_emissions(out, emits, qargs).ops, path) == own_collectors(out.ops, path),
    decreases emits.len(),
{
    if emits.len() > 0 {
        lemma_emissions_collect_nothing(out, emits.drop_last(), qargs, path);
        assert(with_emissions(out, emits, qargs).ops.drop_last() =~= with_emissions(
            out,
            emits.drop_last(),
            qargs,
        ).ops);
    }
}

// --- What building keeps of the circuit's own steps -----------------------------------------------------

/// Those of some steps that are on a qubit and are no emission, in the order they come in.
pub open spec fn own_steps(steps: Seq<Step>, qubit: usize) -> Seq<Step>
    decreases steps.len(),
{
    if steps.len() == 0 {
        Seq::empty()
    } else {
        let before = own_steps(steps.drop_last(), qubit);
        if !(steps.last().op is Emit) && steps.last().qubits.contains(qubit) {
            before.push(steps.last())
        } else {
            before
        }
    }
}

proof fn lemma_own_steps_add(left: Seq<Step>, right: Seq<Step>, qubit: usize)
    ensures
        own_steps(left + right, qubit) == own_steps(left, qubit) + own_steps(right, qubit),
    decreases right.len(),
{
    if right.len() == 0 {
        assert(left + right =~= left);
        assert(own_steps(left, qubit) + Seq::<Step>::empty() =~= own_steps(left, qubit));
    } else {
        lemma_own_steps_add(left, right.drop_last(), qubit);
        assert((left + right).drop_last() =~= left + right.drop_last());
        assert(own_steps(left + right, qubit) =~= own_steps(left, qubit) + own_steps(right, qubit));
    }
}

proof fn lemma_own_steps_off(steps: Seq<Step>, qubits: Seq<usize>, qubit: usize)
    requires
        steps_within(steps, qubits),
        !qubits.contains(qubit),
    ensures
        own_steps(steps, qubit) == Seq::<Step>::empty(),
    decreases steps.len(),
{
    if steps.len() > 0 {
        let front = steps.drop_last();
        assert forall|i: int, k: int|
            0 <= i < front.len() && 0 <= k < front[i].qubits.len() implies qubits.contains(
            #[trigger] front[i].qubits[k],
        ) by {
            assert(steps[i].qubits[k] == front[i].qubits[k]);
        }
        lemma_own_steps_off(front, qubits, qubit);
        let last = steps.len() - 1;
        if steps.last().qubits.contains(qubit) {
            let k = steps.last().qubits.index_of(qubit);
            assert(qubits.contains(steps[last].qubits[k]));
        }
    }
}

/// What a circuit and one more instruction do on a qubit.
proof fn lemma_own_steps_with(out: CircuitModel, inst: InstructionModel, outer: Seq<usize>, qubit: usize)
    ensures
        own_steps(flat(out.with(inst).ops, outer), qubit) == own_steps(flat(out.ops, outer), qubit)
            + own_steps(flat_of(inst, outer), qubit),
{
    lemma_flat_push(out.ops, inst, outer);
    lemma_own_steps_add(flat(out.ops, outer), flat_of(inst, outer), qubit);
}

proof fn lemma_own_steps_with_emissions(
    out: CircuitModel,
    emits: Seq<EmitModel>,
    qargs: Seq<usize>,
    outer: Seq<usize>,
    qubit: usize,
)
    ensures
        own_steps(flat(with_emissions(out, emits, qargs).ops, outer), qubit) == own_steps(
            flat(out.ops, outer),
            qubit,
        ),
    decreases emits.len(),
{
    if emits.len() > 0 {
        lemma_own_steps_with_emissions(out, emits.drop_last(), qargs, outer, qubit);
        let before = with_emissions(out, emits.drop_last(), qargs);
        let inst = next_instruction(
            before,
            OperationModel::Emit(emits.last()),
            Seq::empty(),
            Seq::empty(),
            qargs,
            Seq::empty(),
        );
        lemma_own_steps_with(before, inst, outer, qubit);
        let one = flat_of(inst, outer);
        assert(one.len() == 1 && one.last().op is Emit);
        assert(own_steps(one.drop_last(), qubit) =~= Seq::<Step>::empty());
        let start = own_steps(flat(out.ops, outer), qubit);
        assert(start + own_steps(one, qubit) =~= start);
    }
}

proof fn lemma_own_steps_with_box(
    out: CircuitModel,
    op: OperationModel,
    body: CircuitModel,
    qargs: Seq<usize>,
    cargs: Seq<usize>,
    outer: Seq<usize>,
    qubit: usize,
)
    requires
        op.is_box(),
    ensures
        own_steps(flat(with_box(out, op, body, qargs, cargs).ops, outer), qubit) == own_steps(
            flat(out.ops, outer),
            qubit,
        ) + own_steps(flat(body.ops, through(outer, qargs)), qubit),
{
    let inst = next_instruction(out, op, Seq::empty(), seq![body], qargs, cargs);
    lemma_own_steps_with(out, inst, outer, qubit);
    assert(inst.blocks[0] == body);
}

/// What some instructions of a run do on a qubit, one after another.
pub open spec fn own_at(
    ops: Seq<InstructionModel>,
    nodes: Seq<int>,
    frame: Seq<usize>,
    qubit: usize,
) -> Seq<Step>
    decreases nodes.len(),
{
    if nodes.len() == 0 {
        Seq::empty()
    } else {
        own_at(ops, nodes.drop_last(), frame, qubit) + own_steps(
            flat_of(ops[nodes.last()], frame),
            qubit,
        )
    }
}

proof fn lemma_own_at_push(
    ops: Seq<InstructionModel>,
    nodes: Seq<int>,
    node: int,
    frame: Seq<usize>,
    qubit: usize,
)
    ensures
        own_at(ops, nodes.push(node), frame, qubit) == own_at(ops, nodes, frame, qubit) + own_steps(
            flat_of(ops[node], frame),
            qubit,
        ),
{
    assert(nodes.push(node).drop_last() =~= nodes);
}

proof fn lemma_own_at_nothing(
    ops: Seq<InstructionModel>,
    nodes: Seq<int>,
    frame: Seq<usize>,
    qubit: usize,
)
    requires
        forall|k: int|
            0 <= k < nodes.len() ==> own_steps(flat_of(ops[#[trigger] nodes[k]], frame), qubit)
                == Seq::<Step>::empty(),
    ensures
        own_at(ops, nodes, frame, qubit) == Seq::<Step>::empty(),
    decreases nodes.len(),
{
    if nodes.len() > 0 {
        let front = nodes.drop_last();
        assert forall|k: int| 0 <= k < front.len() implies own_steps(
            flat_of(ops[#[trigger] front[k]], frame),
            qubit,
        ) == Seq::<Step>::empty() by {
            assert(nodes[k] == front[k]);
        }
        lemma_own_at_nothing(ops, front, frame, qubit);
        assert(nodes[nodes.len() - 1] == nodes.last());
        assert(Seq::<Step>::empty() + Seq::<Step>::empty() =~= Seq::<Step>::empty());
    }
}

proof fn lemma_own_steps_grow(ops: Seq<InstructionModel>, count: nat, frame: Seq<usize>, qubit: usize)
    requires
        0 < count <= ops.len(),
    ensures
        own_steps(flat(ops.take(count as int), frame), qubit) == own_steps(
            flat(ops.take(count - 1), frame),
            qubit,
        ) + own_steps(flat_of(ops[count - 1], frame), qubit),
{
    let all = ops.take(count as int);
    assert(all.drop_last() =~= ops.take(count - 1));
    assert(all.last() == ops[count - 1]);
    lemma_own_steps_add(flat(ops.take(count - 1), frame), flat_of(ops[count - 1], frame), qubit);
}

proof fn lemma_own_at_positions(
    ops: Seq<InstructionModel>,
    count: nat,
    frame: Seq<usize>,
    qubit: usize,
)
    requires
        count <= ops.len(),
    ensures
        own_at(ops, positions(count), frame, qubit) == own_steps(
            flat(ops.take(count as int), frame),
            qubit,
        ),
    decreases count,
{
    if count > 0 {
        lemma_own_at_positions(ops, (count - 1) as nat, frame, qubit);
        lemma_own_steps_grow(ops, count, frame, qubit);
        assert(positions(count).drop_last() =~= positions((count - 1) as nat));
    } else {
        assert(ops.take(0) =~= Seq::<InstructionModel>::empty());
        assert(flat(ops.take(0), frame) =~= Seq::<Step>::empty());
    }
}

/// Two instructions that share no wire are not both on one qubit.
proof fn lemma_apart_on_qubit(
    one: InstructionModel,
    other: InstructionModel,
    num_qubits: nat,
    num_clbits: nat,
    frame: Seq<usize>,
    qubit: usize,
)
    requires
        one.wf(num_qubits, num_clbits),
        other.wf(num_qubits, num_clbits),
        tells_apart(frame, num_qubits),
        one.qubits.len() == 1,
        !other.qubits.contains(one.qubits[0]),
    ensures
        own_steps(flat_of(one, frame), qubit) == Seq::<Step>::empty() || own_steps(
            flat_of(other, frame),
            qubit,
        ) == Seq::<Step>::empty(),
{
    let here = through(frame, one.qubits);
    let there = through(frame, other.qubits);
    lemma_flat_of_within(one, frame, num_qubits, num_clbits);
    lemma_flat_of_within(other, frame, num_qubits, num_clbits);
    if !here.contains(qubit) {
        lemma_own_steps_off(flat_of(one, frame), here, qubit);
    } else {
        let k = here.index_of(qubit);
        assert(here[k] == qubit && k == 0);
        if there.contains(qubit) {
            let j = there.index_of(qubit);
            assert(there[j] == qubit);
            assert(one.qubits[0] < num_qubits);
            assert(other.qubits[j] < num_qubits);
            assert(frame[one.qubits[0] as int] == frame[other.qubits[j] as int]);
            assert(other.qubits.contains(other.qubits[j]));
        }
        lemma_own_steps_off(flat_of(other, frame), there, qubit);
    }
}

proof fn lemma_side_members(
    ops: Seq<InstructionModel>,
    dressing: Option<Dressing>,
    count: nat,
    dressed: bool,
)
    ensures
        forall|k: int|
            0 <= k < side(ops, dressing, count, dressed).len() ==> 0 <= #[trigger] side(
                ops,
                dressing,
                count,
                dressed,
            )[k] < count && easy(ops, dressing, side(ops, dressing, count, dressed)[k]) == dressed,
    decreases count,
{
    if count > 0 {
        let before = side(ops, dressing, (count - 1) as nat, dressed);
        let after = side(ops, dressing, count, dressed);
        lemma_side_members(ops, dressing, (count - 1) as nat, dressed);
        assert forall|k: int| 0 <= k < after.len() implies 0 <= #[trigger] after[k] < count && easy(
            ops,
            dressing,
            after[k],
        ) == dressed by {
            if k < before.len() {
                assert(after[k] == before[k]);
            }
        }
    }
}

/// Sweeping a body apart keeps what each qubit sees.
proof fn lemma_own_at_sides(
    ops: Seq<InstructionModel>,
    dressing: Option<Dressing>,
    count: nat,
    num_qubits: nat,
    num_clbits: nat,
    frame: Seq<usize>,
    qubit: usize,
)
    requires
        run_on(ops, num_qubits, num_clbits),
        tells_apart(frame, num_qubits),
        count <= ops.len(),
    ensures
        ({
            let near = own_at(ops, side(ops, dressing, count, true), frame, qubit);
            let far = own_at(ops, side(ops, dressing, count, false), frame, qubit);
            own_steps(flat(ops.take(count as int), frame), qubit) == if dressing == Some(
                Dressing::Right,
            ) {
                far + near
            } else {
                near + far
            }
        }),
    decreases count,
{
    let none = Seq::<Step>::empty();
    if count == 0 {
        assert(ops.take(0) =~= Seq::<InstructionModel>::empty());
        assert(flat(ops.take(0), frame) =~= none);
        assert(none + none =~= none);
    } else {
        let less = (count - 1) as nat;
        let last = count - 1;
        lemma_own_at_sides(ops, dressing, less, num_qubits, num_clbits, frame, qubit);
        lemma_own_steps_grow(ops, count, frame, qubit);
        let near = side(ops, dressing, less, true);
        let far = side(ops, dressing, less, false);
        let a = own_at(ops, near, frame, qubit);
        let b = own_at(ops, far, frame, qubit);
        let c = own_steps(flat_of(ops[last], frame), qubit);
        lemma_own_at_push(ops, near, last, frame, qubit);
        lemma_own_at_push(ops, far, last, frame, qubit);
        lemma_side_members(ops, dressing, less, true);
        lemma_side_members(ops, dressing, less, false);
        assert(ops[last].wf(num_qubits, num_clbits));
        assert(a + b + c =~= a + (b + c));
        assert(b + a + c =~= b + (a + c));
        if easy(ops, dressing, last) && dressing == Some(Dressing::Left) {
            if c != none {
                assert forall|k: int| 0 <= k < far.len() implies own_steps(
                    flat_of(ops[#[trigger] far[k]], frame),
                    qubit,
                ) == none by {
                    assert(ops[far[k]].wf(num_qubits, num_clbits));
                    lemma_sweep_crosses_nothing(ops, Dressing::Left, last, far[k]);
                    lemma_apart_on_qubit(
                        ops[last],
                        ops[far[k]],
                        num_qubits,
                        num_clbits,
                        frame,
                        qubit,
                    );
                }
                lemma_own_at_nothing(ops, far, frame, qubit);
                assert(a + none =~= a);
                assert(a + c + none =~= a + c);
            } else {
                assert(a + none =~= a);
                assert(a + b + none =~= a + b);
            }
        } else if !easy(ops, dressing, last) && dressing == Some(Dressing::Right) {
            if c != none {
                assert forall|k: int| 0 <= k < near.len() implies own_steps(
                    flat_of(ops[#[trigger] near[k]], frame),
                    qubit,
                ) == none by {
                    assert(ops[near[k]].wf(num_qubits, num_clbits));
                    lemma_sweep_crosses_nothing(ops, Dressing::Right, near[k], last);
                    lemma_apart_on_qubit(
                        ops[near[k]],
                        ops[last],
                        num_qubits,
                        num_clbits,
                        frame,
                        qubit,
                    );
                }
                lemma_own_at_nothing(ops, near, frame, qubit);
                assert(b + none =~= b);
                assert(b + c + none =~= b + c);
            } else {
                assert(b + none =~= b);
                assert(b + a + none =~= b + a);
            }
        }
    }
}

proof fn lemma_emissions_wires(out: CircuitModel, emits: Seq<EmitModel>, qargs: Seq<usize>)
    ensures
        same_wires(out, with_emissions(out, emits, qargs)),
    decreases emits.len(),
{
    if emits.len() > 0 {
        lemma_emissions_wires(out, emits.drop_last(), qargs);
    }
}

proof fn lemma_walked_wires(
    circuit: CircuitModel,
    nodes: Seq<int>,
    draft: Draft,
    frame: Frame,
    nested: bool,
)
    requires
        walked(circuit, nodes, draft, frame, nested) is Ok,
    ensures
        same_wires(draft.out, walked(circuit, nodes, draft, frame, nested)->Ok_0.out),
    decreases circuit, 0nat, nodes.len(),
{
    if nodes.len() > 0 {
        lemma_walked_wires(circuit, nodes.drop_last(), draft, frame, nested);
        let before = walked(circuit, nodes.drop_last(), draft, frame, nested)->Ok_0;
        let node = nodes.last();
        if 0 <= node < circuit.ops.len() && circuit.ops[node].op is Box {
            assert(decreases_to!(circuit => circuit.ops));
            assert(decreases_to!(circuit.ops => circuit.ops[node]));
            lemma_box_wires(circuit.ops[node], before, frame);
        }
    }
}

proof fn lemma_box_wires(inst: InstructionModel, draft: Draft, frame: Frame)
    requires
        box_built(inst, draft, frame) is Ok,
    ensures
        same_wires(draft.out, box_built(inst, draft, frame)->Ok_0.out),
    decreases inst, 0nat, 0nat,
{
    let annotations = inst.op->annotations;
    let resolved = resolution(annotations);
    let qargs = through(frame.qubits, inst.qubits);
    let cargs = through(frame.clbits, inst.clbits);
    let body = inst.blocks[0];
    if !resolved.emits() {
        if carried(annotations).len() == 0 && inst.op->duration is None {
            assert(decreases_to!(inst => inst.blocks));
            assert(decreases_to!(inst.blocks => inst.blocks[0]));
            lemma_walked_wires(
                body,
                positions(body.ops.len()),
                draft,
                Frame { qubits: qargs, clbits: cargs },
                false,
            );
        }
    } else {
        let emitting = emissions_of(resolved, inst.qubits.len(), draft.table);
        let content_op = OperationModel::Box {
            annotations: carried(annotations),
            duration: inst.op->duration,
        };
        let inner = content(body, resolved.dressing, emitting.placed, emitting.table)->Ok_0;
        let collect = collect_box(box_collect(box_synthesizer(resolved), inst.qubits.len()));
        let empty = CircuitModel::bare(qargs.len(), cargs.len());
        let opened = with_box(draft.out, collect, empty, qargs, cargs);
        let outer_left = chosen(emitting.placed, Direction::Left, Role::Outer);
        let outer_right = chosen(emitting.placed, Direction::Right, Role::Outer);
        let left = with_emissions(opened, outer_left, qargs);
        let middle = with_box(left, content_op, inner.out, qargs, cargs);
        lemma_emissions_wires(opened, outer_left, qargs);
        lemma_emissions_wires(middle, outer_right, qargs);
    }
}

proof fn lemma_walked_own_steps(
    circuit: CircuitModel,
    nodes: Seq<int>,
    draft: Draft,
    frame: Frame,
    nested: bool,
    outer: Seq<usize>,
    qubit: usize,
)
    requires
        circuit.wf(),
        frame.qubits.len() == circuit.num_qubits,
        tells_apart(through(outer, frame.qubits), circuit.num_qubits),
        forall|k: int| 0 <= k < frame.qubits.len() ==> (#[trigger] frame.qubits[k]) < outer.len(),
        forall|k: int| 0 <= k < nodes.len() ==> 0 <= #[trigger] nodes[k] < circuit.ops.len(),
        walked(circuit, nodes, draft, frame, nested) is Ok,
    ensures
        own_steps(
            flat(walked(circuit, nodes, draft, frame, nested)->Ok_0.out.ops, outer),
            qubit,
        ) == own_steps(flat(draft.out.ops, outer), qubit) + own_at(
            circuit.ops,
            nodes,
            through(outer, frame.qubits),
            qubit,
        ),
    decreases circuit, 0nat, nodes.len(),
{
    let start = own_steps(flat(draft.out.ops, outer), qubit);
    let none = Seq::<Step>::empty();
    let global = through(outer, frame.qubits);
    if nodes.len() == 0 {
        assert(start + none =~= start);
    } else {
        let front = nodes.drop_last();
        let node = nodes[nodes.len() - 1];
        assert forall|k: int| 0 <= k < front.len() implies 0 <= #[trigger] front[k]
            < circuit.ops.len() by {
            assert(nodes[k] == front[k]);
        }
        lemma_walked_own_steps(circuit, front, draft, frame, nested, outer, qubit);
        let before = walked(circuit, front, draft, frame, nested)->Ok_0;
        let inst = circuit.ops[node];
        assert(inst.wf(circuit.num_qubits, circuit.num_clbits));
        let known = own_at(circuit.ops, front, global, qubit);
        let own = own_steps(flat_of(inst, global), qubit);
        assert(start + known + own =~= start + (known + own));
        if inst.op is Box {
            assert(decreases_to!(circuit => circuit.ops));
            assert(decreases_to!(circuit.ops => circuit.ops[node]));
            lemma_box_own_steps(
                inst,
                circuit.num_qubits,
                circuit.num_clbits,
                before,
                frame,
                outer,
                qubit,
            );
        } else {
            let copy = next_instruction(
                before.out,
                inst.op,
                inst.params,
                Seq::empty(),
                through(frame.qubits, inst.qubits),
                through(frame.clbits, inst.clbits),
            );
            lemma_own_steps_with(before.out, copy, outer, qubit);
            lemma_through_twice(outer, frame.qubits, inst.qubits);
            assert(flat_of(copy, outer) =~= flat_of(inst, global));
        }
    }
}

proof fn lemma_box_own_steps(
    inst: InstructionModel,
    num_qubits: nat,
    num_clbits: nat,
    draft: Draft,
    frame: Frame,
    outer: Seq<usize>,
    qubit: usize,
)
    requires
        inst.op is Box,
        inst.wf(num_qubits, num_clbits),
        frame.qubits.len() == num_qubits,
        tells_apart(through(outer, frame.qubits), num_qubits),
        forall|k: int| 0 <= k < frame.qubits.len() ==> (#[trigger] frame.qubits[k]) < outer.len(),
        box_built(inst, draft, frame) is Ok,
    ensures
        own_steps(flat(box_built(inst, draft, frame)->Ok_0.out.ops, outer), qubit) == own_steps(
            flat(draft.out.ops, outer),
            qubit,
        ) + own_steps(flat_of(inst, through(outer, frame.qubits)), qubit),
    decreases inst, 0nat, 0nat,
{
    let annotations = inst.op->annotations;
    let resolved = resolution(annotations);
    let width = inst.qubits.len();
    let qargs = through(frame.qubits, inst.qubits);
    let cargs = through(frame.clbits, inst.clbits);
    let content_op = OperationModel::Box {
        annotations: carried(annotations),
        duration: inst.op->duration,
    };
    let body = inst.blocks[0];
    let global = through(outer, frame.qubits);
    let inner_global = through(global, inst.qubits);
    assert(body.num_qubits == width && body.wf());
    lemma_through_twice(outer, frame.qubits, inst.qubits);
    assert(through(outer, qargs) == inner_global);
    lemma_through_apart(global, num_qubits, inst.qubits);
    assert(decreases_to!(inst => inst.blocks));
    assert(decreases_to!(inst.blocks => inst.blocks[0]));
    let start = own_steps(flat(draft.out.ops, outer), qubit);
    let own = own_steps(flat(body.ops, inner_global), qubit);
    if !resolved.emits() {
        if carried(annotations).len() == 0 && inst.op->duration is None {
            assert forall|k: int| 0 <= k < qargs.len() implies (#[trigger] qargs[k]) < outer.len() by {
                assert(inst.qubits[k] < num_qubits);
                assert(frame.qubits[inst.qubits[k] as int] < outer.len());
            }
            lemma_walked_own_steps(
                body,
                positions(body.ops.len()),
                draft,
                Frame { qubits: qargs, clbits: cargs },
                false,
                outer,
                qubit,
            );
            lemma_own_at_positions(body.ops, body.ops.len(), inner_global, qubit);
            assert(body.ops.take(body.ops.len() as int) =~= body.ops);
        } else {
            lemma_content_own_steps(body, None, Seq::empty(), draft.table, inner_global, qubit);
            let inner = content(body, None, Seq::empty(), draft.table)->Ok_0;
            lemma_own_steps_with_box(draft.out, content_op, inner.out, qargs, cargs, outer, qubit);
        }
    } else {
        let emitting = emissions_of(resolved, width, draft.table);
        lemma_content_own_steps(
            body,
            resolved.dressing,
            emitting.placed,
            emitting.table,
            inner_global,
            qubit,
        );
        let inner = content(body, resolved.dressing, emitting.placed, emitting.table)->Ok_0;
        let collect = collect_box(box_collect(box_synthesizer(resolved), width));
        let empty = CircuitModel::bare(qargs.len(), cargs.len());
        let opened = with_box(draft.out, collect, empty, qargs, cargs);
        let outer_left = chosen(emitting.placed, Direction::Left, Role::Outer);
        let outer_right = chosen(emitting.placed, Direction::Right, Role::Outer);
        let left = with_emissions(opened, outer_left, qargs);
        let middle = with_box(left, content_op, inner.out, qargs, cargs);
        let right = with_emissions(middle, outer_right, qargs);
        lemma_own_steps_with_box(draft.out, collect, empty, qargs, cargs, outer, qubit);
        lemma_own_steps_with_emissions(opened, outer_left, qargs, outer, qubit);
        lemma_own_steps_with_box(left, content_op, inner.out, qargs, cargs, outer, qubit);
        lemma_own_steps_with_emissions(middle, outer_right, qargs, outer, qubit);
        lemma_own_steps_with_box(right, collect, empty, qargs, cargs, outer, qubit);
        let none = Seq::<Step>::empty();
        assert(flat(empty.ops, inner_global) =~= none);
        assert(own_steps(none, qubit) =~= none);
        assert(start + none =~= start);
        assert(start + own + none =~= start + own);
    }
}

proof fn lemma_content_own_steps(
    body: CircuitModel,
    dressing: Option<Dressing>,
    placed: Seq<PlacedModel>,
    table: DistributionTableModel,
    outer: Seq<usize>,
    qubit: usize,
)
    requires
        body.wf(),
        outer.len() == body.num_qubits,
        body.num_qubits <= usize::MAX,
        tells_apart(outer, body.num_qubits),
        content(body, dressing, placed, table) is Ok,
    ensures
        own_steps(flat(content(body, dressing, placed, table)->Ok_0.out.ops, outer), qubit)
            == own_steps(flat(body.ops, outer), qubit),
    decreases body, 1nat, 0nat,
{
    let frame = own_frame(body.num_qubits, body.num_clbits);
    let count = body.ops.len();
    let near = side(body.ops, dressing, count, true);
    let far = side(body.ops, dressing, count, false);
    lemma_side_members(body.ops, dressing, count, true);
    lemma_side_members(body.ops, dressing, count, false);
    let start = Draft { out: CircuitModel::bare(body.num_qubits, body.num_clbits), table };
    assert(through(outer, frame.qubits) =~= outer);
    let none = Seq::<Step>::empty();
    assert(flat(start.out.ops, outer) =~= none);
    assert(own_steps(none, qubit) =~= none);
    let a = own_at(body.ops, near, outer, qubit);
    let b = own_at(body.ops, far, outer, qubit);
    lemma_own_at_sides(
        body.ops,
        dressing,
        count,
        body.num_qubits,
        body.num_clbits,
        outer,
        qubit,
    );
    assert(body.ops.take(count as int) =~= body.ops);
    assert(none + a =~= a && none + b =~= b);
    let ahead = dressing != Some(Dressing::Right);
    if ahead {
        lemma_walked_own_steps(body, near, start, frame, true, outer, qubit);
    }
    let first = if ahead {
        walked(body, near, start, frame, true)->Ok_0
    } else {
        start
    };
    let facing = chosen(placed, Direction::Left, Role::Facing);
    let leaving = chosen(placed, Direction::Left, Role::Propagating);
    let half = with_emissions(first.out, facing, frame.qubits);
    let opened = Draft { out: with_emissions(half, leaving, frame.qubits), ..first };
    lemma_own_steps_with_emissions(first.out, facing, frame.qubits, outer, qubit);
    lemma_own_steps_with_emissions(half, leaving, frame.qubits, outer, qubit);
    lemma_walked_own_steps(body, far, opened, frame, true, outer, qubit);
    let middle = walked(body, far, opened, frame, true)->Ok_0;
    let away = chosen(placed, Direction::Right, Role::Propagating);
    let home = chosen(placed, Direction::Right, Role::Facing);
    let rest = with_emissions(middle.out, away, frame.qubits);
    let closed = Draft { out: with_emissions(rest, home, frame.qubits), ..middle };
    lemma_own_steps_with_emissions(middle.out, away, frame.qubits, outer, qubit);
    lemma_own_steps_with_emissions(rest, home, frame.qubits, outer, qubit);
    if !ahead {
        lemma_walked_own_steps(body, near, closed, frame, true, outer, qubit);
    }
}

/// Building keeps what a circuit does: emissions join it, and apart from those every circuit qubit sees the same
/// steps, with the same parameters on the same circuit qubits, in the same order. None is lost or made up, and
/// none moves past another on its wire.
pub proof fn lemma_building_keeps_the_order_on_every_qubit(dag: CircuitModel, qubit: usize)
    requires
        dag.wf(),
        dag.num_qubits <= usize::MAX,
        built(dag) is Ok,
    ensures
        own_steps(steps_of(built(dag)->Ok_0.out), qubit) == own_steps(steps_of(dag), qubit),
{
    let start = Draft {
        out: CircuitModel::bare(dag.num_qubits, dag.num_clbits),
        table: DistributionTableModel { entries: Seq::empty(), draw_counts: Seq::empty() },
    };
    let frame = own_frame(dag.num_qubits, dag.num_clbits);
    let outer = own_qubits(dag.num_qubits);
    let nodes = positions(dag.ops.len());
    assert(frame.qubits =~= outer);
    assert(through(outer, frame.qubits) =~= outer);
    lemma_own_apart(dag.num_qubits);
    lemma_walked_own_steps(dag, nodes, start, frame, false, outer, qubit);
    lemma_own_at_positions(dag.ops, dag.ops.len(), outer, qubit);
    assert(dag.ops.take(dag.ops.len() as int) =~= dag.ops);
    let none = Seq::<Step>::empty();
    assert(flat(start.out.ops, outer) =~= none);
    assert(own_steps(none, qubit) =~= none);
    let all = own_steps(flat(dag.ops, outer), qubit);
    assert(none + all =~= all);
    lemma_walked_wires(dag, nodes, start, frame, false);
}

// --- Where emissions stand ------------------------------------------------------------------------------

/// What a dressing takes is what leads towards it: an instruction of a body is on the dressing's side exactly if it
/// is a single-qubit gate and everything between it and that edge on its qubit is one too.
pub proof fn lemma_dressing_takes_what_leads(
    ops: Seq<InstructionModel>,
    dressing: Dressing,
    at: int,
)
    requires
        0 <= at < ops.len(),
    ensures
        easy(ops, Some(dressing), at) <==> absorbable(ops[at]) && forall|j: int|
            0 <= j < ops.len() && (dressing == Dressing::Left ==> j < at) && (dressing
                == Dressing::Right ==> at < j) && (#[trigger] ops[j]).qubits.contains(
                ops[at].qubits[0],
            ) ==> absorbable(ops[j]),
{
    let qubit = ops[at].qubits[0];
    match dressing {
        Dressing::Left => {
            lemma_poisoned_by(ops, at as nat, qubit);
        },
        Dressing::Right => {
            let run = ops.reverse();
            let back = ops.len() - 1 - at;
            assert(run[back] == ops[at]);
            lemma_poisoned_by(run, back as nat, qubit);
            if exists|j: int|
                at < j < ops.len() && (#[trigger] ops[j]).qubits.contains(qubit) && !absorbable(ops[j]) {
                let j = choose|j: int|
                    at < j < ops.len() && (#[trigger] ops[j]).qubits.contains(qubit) && !absorbable(
                        ops[j],
                    );
                assert(run[ops.len() - 1 - j] == ops[j]);
            }
            if exists|j: int|
                0 <= j < back && (#[trigger] run[j]).qubits.contains(qubit) && !absorbable(run[j]) {
                let j = choose|j: int|
                    0 <= j < back && (#[trigger] run[j]).qubits.contains(qubit) && !absorbable(run[j]);
                assert(ops[ops.len() - 1 - j] == run[j]);
            }
        },
    }
}

/// A qubit is spoilt exactly once something that cannot be taken has been on it.
proof fn lemma_poisoned_by(run: Seq<InstructionModel>, count: nat, qubit: usize)
    requires
        count <= run.len(),
    ensures
        poisoned(run, count).contains(qubit) <==> exists|j: int|
            0 <= j < count && (#[trigger] run[j]).qubits.contains(qubit) && !absorbable(run[j]),
    decreases count,
{
    if count > 0 {
        let less = (count - 1) as nat;
        let inst = run[count - 1];
        lemma_poisoned_by(run, less, qubit);
        if poisoned(run, less).contains(qubit) {
            let j = choose|j: int|
                0 <= j < less && (#[trigger] run[j]).qubits.contains(qubit) && !absorbable(run[j]);
            assert(0 <= j < count && run[j].qubits.contains(qubit) && !absorbable(run[j]));
        }
        if absorbable(inst) && inst.qubits.contains(qubit) {
            assert(inst.qubits[0] == qubit);
        }
        if !absorbable(inst) && inst.qubits.contains(qubit) {
            assert(run[count - 1].qubits.contains(qubit));
        }
    }
}

/// Whether some emissions are those with a role on an edge, each once and from left to right: the deeper, the nearer
/// the content, and at one depth as they were made. `order` says which each one is.
pub open spec fn in_order(
    placed: Seq<PlacedModel>,
    edge: Direction,
    role: Role,
    emits: Seq<EmitModel>,
    order: Seq<int>,
) -> bool {
    &&& order.len() == emits.len()
    &&& forall|k: int|
        0 <= k < order.len() ==> 0 <= #[trigger] order[k] < placed.len() && placed[order[k]].edge
            == edge && role_of(placed[order[k]]) == role && emits[k] == placed[order[k]].emit
    &&& forall|i: int|
        0 <= i < placed.len() && (#[trigger] placed[i]).edge == edge && role_of(placed[i]) == role
            ==> order.contains(i)
    &&& forall|k: int, l: int|
        0 <= k < l < order.len() ==> {
            let one = placed[#[trigger] order[k]].depth;
            let other = placed[#[trigger] order[l]].depth;
            ||| one == other && order[k] < order[l]
            ||| edge == Direction::Left && one > other
            ||| edge == Direction::Right && one < other
        }
}

/// Which emissions at a depth have a role on an edge.
spec fn which(placed: Seq<PlacedModel>, edge: Direction, role: Role, depth: u8) -> Seq<int>
    decreases placed.len(),
{
    if placed.len() == 0 {
        Seq::empty()
    } else {
        let before = which(placed.drop_last(), edge, role, depth);
        let last = placed.last();
        if last.edge == edge && role_of(last) == role && last.depth == depth {
            before.push(placed.len() - 1)
        } else {
            before
        }
    }
}

proof fn lemma_which(placed: Seq<PlacedModel>, edge: Direction, role: Role, depth: u8)
    ensures
        ({
            let order = which(placed, edge, role, depth);
            let emits = at_depth(placed, edge, role, depth);
            &&& order.len() == emits.len()
            &&& forall|k: int|
                0 <= k < order.len() ==> 0 <= #[trigger] order[k] < placed.len()
                    && placed[order[k]].edge == edge && role_of(placed[order[k]]) == role
                    && placed[order[k]].depth == depth && emits[k] == placed[order[k]].emit
            &&& forall|k: int, l: int|
                0 <= k < l < order.len() ==> #[trigger] order[k] < #[trigger] order[l]
            &&& forall|i: int|
                0 <= i < placed.len() && (#[trigger] placed[i]).edge == edge && role_of(placed[i])
                    == role && placed[i].depth == depth ==> order.contains(i)
        }),
    decreases placed.len(),
{
    if placed.len() > 0 {
        let front = placed.drop_last();
        let last = placed.len() - 1;
        lemma_which(front, edge, role, depth);
        let before = which(front, edge, role, depth);
        let order = which(placed, edge, role, depth);
        let emits = at_depth(placed, edge, role, depth);
        assert forall|k: int| 0 <= k < order.len() implies 0 <= #[trigger] order[k] < placed.len()
            && placed[order[k]].edge == edge && role_of(placed[order[k]]) == role
            && placed[order[k]].depth == depth && emits[k] == placed[order[k]].emit by {
            if k < before.len() {
                assert(order[k] == before[k]);
                assert(placed[before[k]] == front[before[k]]);
            }
        }
        assert forall|k: int, l: int| 0 <= k < l < order.len() implies #[trigger] order[k]
            < #[trigger] order[l] by {
            assert(order[k] == before[k]);
            if l < before.len() {
                assert(order[l] == before[l]);
            }
        }
        assert forall|i: int|
            0 <= i < placed.len() && (#[trigger] placed[i]).edge == edge && role_of(placed[i]) == role
                && placed[i].depth == depth implies order.contains(i) by {
            if i < last {
                assert(front[i] == placed[i]);
                assert(before.contains(i));
                let k = before.index_of(i);
                assert(order[k] == i);
            } else {
                assert(order[order.len() - 1] == i);
            }
        }
    }
}

/// Emissions on an edge stand by depth: each of them once, and the deeper, the nearer the content.
pub proof fn lemma_emissions_stand_by_depth(
    placed: Seq<PlacedModel>,
    edge: Direction,
    role: Role,
) -> (order: Seq<int>)
    requires
        forall|i: int| 0 <= i < placed.len() ==> (#[trigger] placed[i]).depth <= DEPTH_BASIS,
    ensures
        in_order(placed, edge, role, chosen(placed, edge, role), order),
{
    let near = which(placed, edge, role, DEPTH_TWIRL);
    let middle = which(placed, edge, role, DEPTH_INJECTION);
    let far = which(placed, edge, role, DEPTH_BASIS);
    lemma_which(placed, edge, role, DEPTH_TWIRL);
    lemma_which(placed, edge, role, DEPTH_INJECTION);
    lemma_which(placed, edge, role, DEPTH_BASIS);
    let first = match edge {
        Direction::Left => far,
        Direction::Right => near,
    };
    let last = match edge {
        Direction::Left => near,
        Direction::Right => far,
    };
    let order = first + middle + last;
    let emits = chosen(placed, edge, role);
    assert forall|k: int| 0 <= k < order.len() implies 0 <= #[trigger] order[k] < placed.len()
        && placed[order[k]].edge == edge && role_of(placed[order[k]]) == role && emits[k]
        == placed[order[k]].emit by {
        if k < first.len() {
            assert(order[k] == first[k]);
        } else if k < first.len() + middle.len() {
            assert(order[k] == middle[k - first.len()]);
        } else {
            assert(order[k] == last[k - first.len() - middle.len()]);
        }
    }
    assert forall|i: int|
        0 <= i < placed.len() && (#[trigger] placed[i]).edge == edge && role_of(placed[i])
            == role implies order.contains(i) by {
        if first.contains(i) {
            assert(order[first.index_of(i)] == i);
        } else if middle.contains(i) {
            assert(order[first.len() + middle.index_of(i)] == i);
        } else {
            assert(last.contains(i));
            assert(order[first.len() + middle.len() + last.index_of(i)] == i);
        }
    }
    assert forall|k: int, l: int| 0 <= k < l < order.len() implies {
        let one = placed[#[trigger] order[k]].depth;
        let other = placed[#[trigger] order[l]].depth;
        ||| one == other && order[k] < order[l]
        ||| edge == Direction::Left && one > other
        ||| edge == Direction::Right && one < other
    } by {
        let a = first.len() as int;
        let b = a + middle.len();
        if k < a {
            assert(order[k] == first[k]);
        } else if k < b {
            assert(order[k] == middle[k - a]);
        } else {
            assert(order[k] == last[k - b]);
        }
        if l < a {
            assert(order[l] == first[l]);
        } else if l < b {
            assert(order[l] == middle[l - a]);
        } else {
            assert(order[l] == last[l - b]);
        }
    }
    order
}

/// Whether a run goes on from another.
spec fn goes_on_from(before: Seq<InstructionModel>, after: Seq<InstructionModel>) -> bool {
    before.len() <= after.len() && after.take(before.len() as int) == before
}

proof fn lemma_goes_on_push(before: Seq<InstructionModel>, after: Seq<InstructionModel>, inst: InstructionModel)
    requires
        goes_on_from(before, after),
    ensures
        goes_on_from(before, after.push(inst)),
{
    assert(after.push(inst).take(before.len() as int) =~= after.take(before.len() as int));
}

proof fn lemma_goes_on_twice(
    first: Seq<InstructionModel>,
    second: Seq<InstructionModel>,
    third: Seq<InstructionModel>,
)
    requires
        goes_on_from(first, second),
        goes_on_from(second, third),
    ensures
        goes_on_from(first, third),
{
    assert(third.take(first.len() as int) =~= third.take(second.len() as int).take(
        first.len() as int,
    ));
}

/// Emissions follow what was written, each in its turn, and no step of the circuit comes between them.
proof fn lemma_emissions_in_turn(out: CircuitModel, emits: Seq<EmitModel>, qargs: Seq<usize>)
    ensures
        ({
            let after = with_emissions(out, emits, qargs);
            &&& after.ops.len() == out.ops.len() + emits.len()
            &&& goes_on_from(out.ops, after.ops)
            &&& forall|k: int|
                0 <= k < emits.len() ==> after.ops[out.ops.len() + k].op == OperationModel::Emit(
                    #[trigger] emits[k],
                ) && after.ops[out.ops.len() + k].qubits == qargs
            &&& forall|k: int, outer: Seq<usize>, qubit: usize|
                0 <= k <= emits.len() ==> #[trigger] own_steps(
                    flat(after.ops.take(out.ops.len() + k), outer),
                    qubit,
                ) == own_steps(flat(out.ops, outer), qubit)
        }),
    decreases emits.len(),
{
    let after = with_emissions(out, emits, qargs);
    let base = out.ops.len() as int;
    if emits.len() == 0 {
        assert(after.ops.take(base) =~= out.ops);
    } else {
        let front = emits.drop_last();
        let before = with_emissions(out, front, qargs);
        lemma_emissions_in_turn(out, front, qargs);
        lemma_goes_on_push(out.ops, before.ops, after.ops.last());
        assert(after.ops =~= before.ops.push(after.ops.last()));
        assert forall|k: int| 0 <= k < emits.len() implies after.ops[base + k].op
            == OperationModel::Emit(#[trigger] emits[k]) && after.ops[base + k].qubits == qargs by {
            if k < front.len() {
                assert(front[k] == emits[k]);
                assert(after.ops[base + k] == before.ops[base + k]);
            }
        }
        assert forall|k: int, outer: Seq<usize>, qubit: usize| 0 <= k <= emits.len() implies #[trigger] own_steps(
            flat(after.ops.take(base + k), outer),
            qubit,
        ) == own_steps(flat(out.ops, outer), qubit) by {
            if k < emits.len() {
                assert(after.ops.take(base + k) =~= before.ops.take(base + k));
                assert(own_steps(flat(before.ops.take(base + k), outer), qubit) == own_steps(
                    flat(out.ops, outer),
                    qubit,
                ));
            } else {
                assert(after.ops.take(base + k) =~= after.ops);
                lemma_own_steps_with_emissions(out, emits, qargs, outer, qubit);
            }
        }
    }
}

proof fn lemma_walked_goes_on(
    circuit: CircuitModel,
    nodes: Seq<int>,
    draft: Draft,
    frame: Frame,
    nested: bool,
)
    requires
        walked(circuit, nodes, draft, frame, nested) is Ok,
    ensures
        goes_on_from(draft.out.ops, walked(circuit, nodes, draft, frame, nested)->Ok_0.out.ops),
    decreases circuit, 0nat, nodes.len(),
{
    let after = walked(circuit, nodes, draft, frame, nested)->Ok_0;
    if nodes.len() > 0 {
        lemma_walked_goes_on(circuit, nodes.drop_last(), draft, frame, nested);
        let before = walked(circuit, nodes.drop_last(), draft, frame, nested)->Ok_0;
        let node = nodes.last();
        if 0 <= node < circuit.ops.len() {
            if circuit.ops[node].op is Box {
                assert(decreases_to!(circuit => circuit.ops));
                assert(decreases_to!(circuit.ops => circuit.ops[node]));
                lemma_box_goes_on(circuit.ops[node], before, frame);
                lemma_goes_on_twice(draft.out.ops, before.out.ops, after.out.ops);
            } else {
                lemma_goes_on_push(draft.out.ops, before.out.ops, after.out.ops.last());
                assert(after.out.ops =~= before.out.ops.push(after.out.ops.last()));
            }
        }
    } else {
        assert(draft.out.ops.take(draft.out.ops.len() as int) =~= draft.out.ops);
    }
}

proof fn lemma_box_goes_on(inst: InstructionModel, draft: Draft, frame: Frame)
    requires
        box_built(inst, draft, frame) is Ok,
    ensures
        goes_on_from(draft.out.ops, box_built(inst, draft, frame)->Ok_0.out.ops),
    decreases inst, 0nat, 0nat,
{
    let annotations = inst.op->annotations;
    let resolved = resolution(annotations);
    let qargs = through(frame.qubits, inst.qubits);
    let cargs = through(frame.clbits, inst.clbits);
    let body = inst.blocks[0];
    let after = box_built(inst, draft, frame)->Ok_0;
    let start = draft.out.ops;
    assert(start.take(start.len() as int) =~= start);
    if !resolved.emits() {
        if carried(annotations).len() == 0 && inst.op->duration is None {
            assert(decreases_to!(inst => inst.blocks));
            assert(decreases_to!(inst.blocks => inst.blocks[0]));
            lemma_walked_goes_on(
                body,
                positions(body.ops.len()),
                draft,
                Frame { qubits: qargs, clbits: cargs },
                false,
            );
        } else {
            lemma_goes_on_push(start, start, after.out.ops.last());
            assert(after.out.ops =~= start.push(after.out.ops.last()));
        }
    } else {
        let emitting = emissions_of(resolved, inst.qubits.len(), draft.table);
        let content_op = OperationModel::Box {
            annotations: carried(annotations),
            duration: inst.op->duration,
        };
        let inner = content(body, resolved.dressing, emitting.placed, emitting.table)->Ok_0;
        let collect = collect_box(box_collect(box_synthesizer(resolved), inst.qubits.len()));
        let empty = CircuitModel::bare(qargs.len(), cargs.len());
        let opened = with_box(draft.out, collect, empty, qargs, cargs);
        let outer_left = chosen(emitting.placed, Direction::Left, Role::Outer);
        let outer_right = chosen(emitting.placed, Direction::Right, Role::Outer);
        let left = with_emissions(opened, outer_left, qargs);
        let middle = with_box(left, content_op, inner.out, qargs, cargs);
        let right = with_emissions(middle, outer_right, qargs);
        lemma_goes_on_push(start, start, opened.ops.last());
        assert(opened.ops =~= start.push(opened.ops.last()));
        lemma_emissions_in_turn(opened, outer_left, qargs);
        lemma_goes_on_twice(start, opened.ops, left.ops);
        lemma_goes_on_push(start, left.ops, middle.ops.last());
        assert(middle.ops =~= left.ops.push(middle.ops.last()));
        lemma_emissions_in_turn(middle, outer_right, qargs);
        lemma_goes_on_twice(start, middle.ops, right.ops);
        lemma_goes_on_push(start, right.ops, after.out.ops.last());
        assert(after.out.ops =~= right.ops.push(after.out.ops.last()));
    }
}

/// What comes before the emissions on an edge of a body, on a qubit. What the dressing takes lies between them and
/// the dressing's edge, and all else in the body lies between the two edges' emissions.
pub open spec fn ahead_of(
    body: CircuitModel,
    dressing: Option<Dressing>,
    edge: Direction,
    qubit: usize,
) -> Seq<Step> {
    let frame = own_qubits(body.num_qubits);
    let near = own_at(body.ops, side(body.ops, dressing, body.ops.len(), true), frame, qubit);
    let far = own_at(body.ops, side(body.ops, dressing, body.ops.len(), false), frame, qubit);
    match edge {
        Direction::Left => if dressing == Some(Dressing::Right) {
            Seq::empty()
        } else {
            near
        },
        Direction::Right => if dressing == Some(Dressing::Right) {
            far
        } else {
            own_steps(steps_of(body), qubit)
        },
    }
}

/// Whether an emission stands at a place of what a body became: on all of the body's wires, and with what belongs
/// before it on every qubit before it.
pub open spec fn stands_right(
    body: CircuitModel,
    dressing: Option<Dressing>,
    written: Seq<InstructionModel>,
    placed: PlacedModel,
    at: int,
) -> bool {
    &&& 0 <= at < written.len()
    &&& written[at].op == OperationModel::Emit(placed.emit)
    &&& written[at].qubits == own_qubits(body.num_qubits)
    &&& forall|qubit: usize| #[trigger]
        own_steps(flat(written.take(at), own_qubits(body.num_qubits)), qubit) == ahead_of(
            body,
            dressing,
            placed.edge,
            qubit,
        )
}

/// Emissions written somewhere on the way to what a body became.
proof fn lemma_stands_right(
    body: CircuitModel,
    dressing: Option<Dressing>,
    placed: Seq<PlacedModel>,
    written: Seq<InstructionModel>,
    edge: Direction,
    role: Role,
    before: CircuitModel,
    i: int,
) -> (at: (int, int))
    requires
        forall|k: int| 0 <= k < placed.len() ==> (#[trigger] placed[k]).depth <= DEPTH_BASIS,
        0 <= i < placed.len(),
        placed[i].edge == edge,
        role_of(placed[i]) == role,
        goes_on_from(
            with_emissions(
                before,
                chosen(placed, edge, role),
                own_qubits(body.num_qubits),
            ).ops,
            written,
        ),
        forall|qubit: usize| #[trigger]
            own_steps(flat(before.ops, own_qubits(body.num_qubits)), qubit) == ahead_of(
                body,
                dressing,
                edge,
                qubit,
            ),
    ensures
        stands_right(body, dressing, written, placed[i], at.0),
        at.0 == before.ops.len() + at.1,
        0 <= at.1 < chosen(placed, edge, role).len(),
{
    let wires = own_qubits(body.num_qubits);
    let emits = chosen(placed, edge, role);
    let after = with_emissions(before, emits, wires);
    let order = lemma_emissions_stand_by_depth(placed, edge, role);
    assert(order.contains(i));
    let k = order.index_of(i);
    assert(order[k] == i);
    lemma_emissions_in_turn(before, emits, wires);
    let at = before.ops.len() + k;
    assert(emits[k] == placed[i].emit);
    assert(written[at] == written.take(after.ops.len() as int)[at]);
    assert(written.take(at) =~= written.take(after.ops.len() as int).take(at));
    assert forall|qubit: usize| #[trigger] own_steps(flat(written.take(at), wires), qubit)
        == ahead_of(body, dressing, edge, qubit) by {
        assert(own_steps(flat(after.ops.take(before.ops.len() + k), wires), qubit) == own_steps(
            flat(before.ops, wires),
            qubit,
        ));
    }
    (at, k)
}

/// The emissions of a body stand at the twirl point: between them and the dressing's edge is what the dressing takes,
/// and nothing else, and those on the other edge have all of the body on their inner side. Of two on one edge, the
/// one that travels left stands left of the one that travels right, so neither has to pass the other.
pub proof fn lemma_emissions_stand_at_the_twirl_point(
    body: CircuitModel,
    dressing: Option<Dressing>,
    placed: Seq<PlacedModel>,
    table: DistributionTableModel,
    i: int,
    j: int,
) -> (at: (int, int))
    requires
        body.wf(),
        body.num_qubits <= usize::MAX,
        forall|k: int| 0 <= k < placed.len() ==> (#[trigger] placed[k]).depth <= DEPTH_BASIS,
        0 <= i < placed.len(),
        0 <= j < placed.len(),
        role_of(placed[i]) != Role::Outer,
        role_of(placed[j]) != Role::Outer,
        content(body, dressing, placed, table) is Ok,
    ensures
        ({
            let written = content(body, dressing, placed, table)->Ok_0.out.ops;
            &&& stands_right(body, dressing, written, placed[i], at.0)
            &&& stands_right(body, dressing, written, placed[j], at.1)
            &&& placed[i].edge == placed[j].edge && placed[i].emit.direction == Some(Direction::Left)
                && placed[j].emit.direction == Some(Direction::Right) ==> at.0 < at.1
        }),
{
    let frame = own_frame(body.num_qubits, body.num_clbits);
    let count = body.ops.len();
    let near = side(body.ops, dressing, count, true);
    let far = side(body.ops, dressing, count, false);
    let wires = own_qubits(body.num_qubits);
    assert(frame.qubits =~= wires);
    assert(through(wires, frame.qubits) =~= wires);
    lemma_own_apart(body.num_qubits);
    lemma_side_members(body.ops, dressing, count, true);
    lemma_side_members(body.ops, dressing, count, false);
    let start = Draft { out: CircuitModel::bare(body.num_qubits, body.num_clbits), table };
    let none = Seq::<Step>::empty();
    assert(flat(start.out.ops, wires) =~= none);
    let ahead = dressing != Some(Dressing::Right);
    let first = if ahead {
        walked(body, near, start, frame, true)->Ok_0
    } else {
        start
    };
    let lf = chosen(placed, Direction::Left, Role::Facing);
    let lp = chosen(placed, Direction::Left, Role::Propagating);
    let rp = chosen(placed, Direction::Right, Role::Propagating);
    let rf = chosen(placed, Direction::Right, Role::Facing);
    let half = with_emissions(first.out, lf, wires);
    let opened = Draft { out: with_emissions(half, lp, wires), ..first };
    let middle = walked(body, far, opened, frame, true)->Ok_0;
    let rest = with_emissions(middle.out, rp, wires);
    let closed = Draft { out: with_emissions(rest, rf, wires), ..middle };
    let written = content(body, dressing, placed, table)->Ok_0.out.ops;
    lemma_emissions_in_turn(first.out, lf, wires);
    lemma_emissions_in_turn(half, lp, wires);
    lemma_emissions_in_turn(middle.out, rp, wires);
    lemma_emissions_in_turn(rest, rf, wires);
    lemma_walked_goes_on(body, far, opened, frame, true);
    assert(closed.out.ops.take(closed.out.ops.len() as int) =~= closed.out.ops);
    if !ahead {
        lemma_walked_goes_on(body, near, closed, frame, true);
    }
    assert(goes_on_from(closed.out.ops, written));
    lemma_goes_on_twice(rest.ops, closed.out.ops, written);
    lemma_goes_on_twice(middle.out.ops, rest.ops, written);
    lemma_goes_on_twice(opened.out.ops, middle.out.ops, written);
    lemma_goes_on_twice(half.ops, opened.out.ops, written);
    assert forall|qubit: usize|
        (#[trigger] own_steps(flat(first.out.ops, wires), qubit)) == ahead_of(
            body,
            dressing,
            Direction::Left,
            qubit,
        ) && own_steps(flat(half.ops, wires), qubit) == ahead_of(
            body,
            dressing,
            Direction::Left,
            qubit,
        ) && own_steps(flat(middle.out.ops, wires), qubit) == ahead_of(
            body,
            dressing,
            Direction::Right,
            qubit,
        ) && own_steps(flat(rest.ops, wires), qubit) == ahead_of(
            body,
            dressing,
            Direction::Right,
            qubit,
        ) by {
        assert(own_steps(none, qubit) =~= none);
        if ahead {
            lemma_walked_own_steps(body, near, start, frame, true, wires, qubit);
        }
        lemma_own_steps_with_emissions(first.out, lf, wires, wires, qubit);
        lemma_own_steps_with_emissions(half, lp, wires, wires, qubit);
        lemma_walked_own_steps(body, far, opened, frame, true, wires, qubit);
        lemma_own_steps_with_emissions(middle.out, rp, wires, wires, qubit);
        let a = own_at(body.ops, near, wires, qubit);
        let b = own_at(body.ops, far, wires, qubit);
        assert(none + a =~= a && none + b =~= b);
        lemma_own_at_sides(
            body.ops,
            dressing,
            count,
            body.num_qubits,
            body.num_clbits,
            wires,
            qubit,
        );
        assert(body.ops.take(count as int) =~= body.ops);
    }
    assert forall|qubit: usize| #[trigger] own_steps(flat(half.ops, wires), qubit) == ahead_of(
        body,
        dressing,
        Direction::Left,
        qubit,
    ) by {
        assert(own_steps(flat(first.out.ops, wires), qubit) == ahead_of(
            body,
            dressing,
            Direction::Left,
            qubit,
        ));
    }
    assert forall|qubit: usize| #[trigger] own_steps(flat(middle.out.ops, wires), qubit) == ahead_of(
        body,
        dressing,
        Direction::Right,
        qubit,
    ) by {
        assert(own_steps(flat(first.out.ops, wires), qubit) == ahead_of(
            body,
            dressing,
            Direction::Left,
            qubit,
        ));
    }
    assert forall|qubit: usize| #[trigger] own_steps(flat(rest.ops, wires), qubit) == ahead_of(
        body,
        dressing,
        Direction::Right,
        qubit,
    ) by {
        assert(own_steps(flat(first.out.ops, wires), qubit) == ahead_of(
            body,
            dressing,
            Direction::Left,
            qubit,
        ));
    }
    let a = if placed[i].edge == Direction::Left {
        if role_of(placed[i]) == Role::Facing {
            lemma_stands_right(body, dressing, placed, written, Direction::Left, Role::Facing, first.out, i)
        } else {
            lemma_stands_right(body, dressing, placed, written, Direction::Left, Role::Propagating, half, i)
        }
    } else {
        if role_of(placed[i]) == Role::Facing {
            lemma_stands_right(body, dressing, placed, written, Direction::Right, Role::Facing, rest, i)
        } else {
            lemma_stands_right(body, dressing, placed, written, Direction::Right, Role::Propagating, middle.out, i)
        }
    };
    let b = if placed[j].edge == Direction::Left {
        if role_of(placed[j]) == Role::Facing {
            lemma_stands_right(body, dressing, placed, written, Direction::Left, Role::Facing, first.out, j)
        } else {
            lemma_stands_right(body, dressing, placed, written, Direction::Left, Role::Propagating, half, j)
        }
    } else {
        if role_of(placed[j]) == Role::Facing {
            lemma_stands_right(body, dressing, placed, written, Direction::Right, Role::Facing, rest, j)
        } else {
            lemma_stands_right(body, dressing, placed, written, Direction::Right, Role::Propagating, middle.out, j)
        }
    };
    (a.0, b.0)
}

/// An emission on a box's own edge stands outside all of the box's content, on the side of its edge, and inside the box's
/// two collectors. The places are those of the content box and of the emission.
pub proof fn lemma_outer_emissions_stand_inside_the_collectors(
    out: CircuitModel,
    collect: CollectModel,
    placed: Seq<PlacedModel>,
    content_op: OperationModel,
    body: CircuitModel,
    qargs: Seq<usize>,
    cargs: Seq<usize>,
    i: int,
) -> (at: (int, int))
    requires
        forall|k: int| 0 <= k < placed.len() ==> (#[trigger] placed[k]).depth <= DEPTH_BASIS,
        0 <= i < placed.len(),
        role_of(placed[i]) == Role::Outer,
    ensures
        ({
            let written = around(out, collect, placed, content_op, body, qargs, cargs).ops;
            let start = out.ops.len() as int;
            let end = written.len() - 1;
            &&& written.take(start) == out.ops
            &&& written[start].op.collect() == Some(collect)
            &&& written[end].op.collect() == Some(collect)
            &&& written[start].blocks[0].ops.len() == 0
            &&& written[end].blocks[0].ops.len() == 0
            &&& forall|k: int|
                start <= k <= end ==> (#[trigger] written[k]).qubits == qargs
            &&& start < at.0 < end
            &&& written[at.0].op == content_op
            &&& written[at.0].blocks == seq![body]
            &&& start < at.1 < end
            &&& written[at.1].op == OperationModel::Emit(placed[i].emit)
            &&& placed[i].edge == Direction::Left ==> at.1 < at.0
            &&& placed[i].edge == Direction::Right ==> at.0 < at.1
        }),
{
    let written = around(out, collect, placed, content_op, body, qargs, cargs).ops;
    let start = out.ops.len() as int;
    let end = written.len() - 1;
    let empty = CircuitModel::bare(qargs.len(), cargs.len());
    let opened = with_box(out, collect_box(collect), empty, qargs, cargs);
    let left_emits = chosen(placed, Direction::Left, Role::Outer);
    let right_emits = chosen(placed, Direction::Right, Role::Outer);
    let left = with_emissions(opened, left_emits, qargs);
    let middle = with_box(left, content_op, body, qargs, cargs);
    let right = with_emissions(middle, right_emits, qargs);
    lemma_emissions_in_turn(opened, left_emits, qargs);
    lemma_emissions_in_turn(middle, right_emits, qargs);
    let order = lemma_emissions_stand_by_depth(placed, placed[i].edge, Role::Outer);
    assert(order.contains(i));
    let k = order.index_of(i);
    assert(order[k] == i);
    let mid = left.ops.len() as int;
    let at = if placed[i].edge == Direction::Left {
        opened.ops.len() + k
    } else {
        middle.ops.len() + k
    };
    assert forall|m: int| 0 <= m < opened.ops.len() implies #[trigger] written[m] == opened.ops[m] by {
        assert(written[m] == right.ops[m]);
        assert(right.ops[m] == right.ops.take(middle.ops.len() as int)[m]);
        assert(middle.ops[m] == left.ops[m]);
        assert(left.ops[m] == left.ops.take(opened.ops.len() as int)[m]);
    }
    assert forall|m: int| 0 <= m < middle.ops.len() implies #[trigger] written[m] == middle.ops[m] by {
        assert(written[m] == right.ops[m]);
        assert(right.ops[m] == right.ops.take(middle.ops.len() as int)[m]);
    }
    assert(written.take(start) =~= out.ops);
    assert(written[start] == opened.ops[start]);
    assert(written[mid] == middle.ops[mid]);
    let annotations = seq![AnnotationModel::Collect(collect)];
    assert(annotations[0] == AnnotationModel::Collect(collect));
    assert(first_collect(annotations) == Some(collect)) by {
        reveal_with_fuel(first_collect, 2);
    }
    assert forall|m: int| start <= m <= end implies (#[trigger] written[m]).qubits == qargs by {
        if start < m < mid {
            let e = m - opened.ops.len();
            assert(written[m] == middle.ops[m]);
            assert(middle.ops[m] == left.ops[m]);
            assert(left.ops[opened.ops.len() + e].op == OperationModel::Emit(left_emits[e]));
        } else if mid < m < end {
            let e = m - middle.ops.len();
            assert(written[m] == right.ops[m]);
            assert(right.ops[middle.ops.len() + e].op == OperationModel::Emit(right_emits[e]));
        }
    }
    if placed[i].edge == Direction::Left {
        assert(left_emits[k] == placed[i].emit);
        assert(written[at] == middle.ops[at]);
        assert(middle.ops[at] == left.ops[at]);
    } else {
        assert(right_emits[k] == placed[i].emit);
        assert(written[at] == right.ops[at]);
    }
    (mid, at)
}

} // verus!
