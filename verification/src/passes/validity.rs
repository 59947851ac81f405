//! What every emission circuit is, whichever of the passes have run on it.
//!
//! Building makes a valid circuit, absorbing and merging keep it valid in either order, and a valid circuit is
//! all that merging and lowering ask for.

use vstd::prelude::*;

use crate::circuit::CircuitModel;
use crate::circuit::InstructionModel;
use crate::circuit::OperationModel;
use crate::emission_circuit::CollectModel;
use crate::emission_circuit::EmitModel;
use crate::emission_circuit_navigation::collect_box;
use crate::emission_circuit_navigation::lemma_stands_at_exists;
use crate::emission_circuit_navigation::scope_of;
use crate::emission_circuit_navigation::stands_at;
use crate::emission_circuit_navigation::through;
use crate::emission_circuit_navigation::with_op;
use crate::emission_circuit_navigation::with_scope;
use crate::emission_circuit_navigation::without;
use crate::emission_circuit_navigation::SiteModel;
use crate::order::ascent;
use crate::partition::is_partition;
use crate::partition::lemma_reindexed_total;
use crate::partition::total;
use crate::track::join_reach;
use crate::track::joined;
use crate::track::FlatCollector;
use crate::track::ItemModel;
use crate::track::ParamsModel;
use crate::track::TrackModel;

use super::absorb_emissions::at_site;
use super::escape_collectors::equipped;
use super::escape_collectors::equipped_at;
use super::lower::flattened;
use super::lower::flattened_one;
use super::lower::holds_steps;
use super::lower::lemma_lined_up;
use super::lower::lowerable;
use super::lower::lowerable_one;
use super::lower::lemma_lowerable_names_synthesizers;
use super::lower::names_synthesizers;
use super::lower::range;
use super::lower::ranged;
use super::lower::reading_of;
use super::lower::Reading;

verus! {

/// Whether an emission is on its way to a collector, and has something to draw.
pub open spec fn travelling(emit: EmitModel) -> bool {
    emit.direction is Some && emit.parts.len() > 0
}

/// Whether a circuit is a valid emission circuit: every collector names how it synthesizes, partitions exactly
/// the qubits it is on, and holds gates and emissions only; and every emission outside a collector is still
/// travelling.
pub open spec fn valid(circuit: CircuitModel) -> bool
    decreases circuit,
{
    forall|i: int| 0 <= i < circuit.ops.len() ==> valid_at(#[trigger] circuit.ops[i])
}

/// Whether an instruction can stand in a valid emission circuit.
pub open spec fn valid_at(inst: InstructionModel) -> bool
    decreases inst,
{
    match inst.op.collect() {
        Some(collect) => {
            &&& collect.parts.len() > 0
            &&& is_partition(collect.partition)
            &&& total(collect.partition) == inst.qubits.len()
            &&& inst.blocks.len() == 1 ==> holds_steps(inst.blocks[0].ops)
        },
        None => {
            &&& inst.op.is_box() && inst.blocks.len() == 1 ==> valid(inst.blocks[0])
            &&& inst.op matches OperationModel::Emit(emit) ==> travelling(emit)
        },
    }
}

/// A valid circuit's collectors are equipped for merging.
pub proof fn lemma_valid_is_equipped(circuit: CircuitModel)
    requires
        valid(circuit),
    ensures
        equipped(circuit),
    decreases circuit,
{
    assert forall|i: int| 0 <= i < circuit.ops.len() implies equipped_at(#[trigger] circuit.ops[i]) by {
        let inst = circuit.ops[i];
        assert(valid_at(inst));
        if inst.op.is_content_box() && inst.blocks.len() == 1 {
            assert(decreases_to!(circuit => circuit.ops));
            assert(decreases_to!(circuit.ops => circuit.ops[i]));
            assert(decreases_to!(inst => inst.blocks));
            assert(decreases_to!(inst.blocks => inst.blocks[0]));
            lemma_valid_is_equipped(inst.blocks[0]);
        }
    }
}

/// A valid circuit's collectors can be lowered.
pub proof fn lemma_valid_is_lowerable(circuit: CircuitModel)
    requires
        valid(circuit),
    ensures
        lowerable(circuit.ops),
    decreases circuit,
{
    assert forall|i: int| 0 <= i < circuit.ops.len() implies lowerable_one(
        #[trigger] circuit.ops[i],
    ) by {
        let inst = circuit.ops[i];
        assert(valid_at(inst));
        if inst.op.collect() is None && inst.op.is_box() && inst.blocks.len() == 1 {
            assert(decreases_to!(circuit => circuit.ops));
            assert(decreases_to!(circuit.ops => circuit.ops[i]));
            assert(decreases_to!(inst => inst.blocks));
            assert(decreases_to!(inst.blocks => inst.blocks[0]));
            lemma_valid_is_lowerable(inst.blocks[0]);
        }
    }
}

/// What is reached through content boxes of a valid circuit is valid, and so is the scope it stands in.
pub(crate) proof fn lemma_valid_at(root: CircuitModel, scope: Seq<usize>, node: usize)
    requires
        root.wf(),
        valid(root),
        stands_at(root, scope, node),
    ensures
        valid_at(at_site(root, SiteModel { scope, node })),
        valid(scope_of(root, scope)->Ok_0),
    decreases scope.len(),
{
    lemma_stands_at_exists(root, scope, node);
    if scope.len() == 0 {
        assert(valid_at(root.ops[root.at(node)]));
    } else {
        let inst = root.get(scope[0]);
        assert(valid_at(root.ops[root.at(scope[0])]));
        assert(inst.wf(root.num_qubits, root.num_clbits));
        lemma_valid_at(inst.blocks[0], scope.drop_first(), node);
    }
}

/// Rewriting one scope of a valid circuit keeps it valid if the new scope is.
pub(crate) proof fn lemma_valid_rewrite(
    root: CircuitModel,
    scope: Seq<usize>,
    node: usize,
    inner: CircuitModel,
)
    requires
        root.wf(),
        valid(root),
        stands_at(root, scope, node),
        valid(inner),
    ensures
        valid(with_scope(root, scope, inner)),
    decreases scope.len(),
{
    if scope.len() > 0 {
        let at = root.at(scope[0]);
        let inst = root.ops[at];
        assert(root.get(scope[0]) == inst);
        assert(valid_at(inst));
        assert(inst.wf(root.num_qubits, root.num_clbits));
        lemma_valid_rewrite(inst.blocks[0], scope.drop_first(), node, inner);
        let after = with_scope(root, scope, inner);
        assert forall|i: int| 0 <= i < after.ops.len() implies valid_at(#[trigger] after.ops[i]) by {
            assert(valid_at(root.ops[i]));
        }
    }
}

/// Giving a collector of a valid circuit another body of gates and emissions keeps the circuit valid.
pub(crate) proof fn lemma_valid_refilled(
    circuit: CircuitModel,
    node: usize,
    collect: CollectModel,
    body: CircuitModel,
)
    requires
        circuit.wf(),
        valid(circuit),
        circuit.has(node),
        circuit.get(node).op.collect() == Some(collect),
        holds_steps(body.ops),
    ensures
        valid(with_op(circuit, node, collect_box(collect), body)),
{
    let after = with_op(circuit, node, collect_box(collect), body);
    assert(valid_at(circuit.ops[circuit.at(node)]));
    assert(collect_box(collect).collect() == Some(collect));
    assert forall|i: int| 0 <= i < after.ops.len() implies valid_at(#[trigger] after.ops[i]) by {
        assert(valid_at(circuit.ops[i]));
        if i == circuit.at(node) {
            assert(after.ops[i].blocks[0] == body);
        }
    }
}

/// Taking an instruction out of a valid circuit keeps it valid.
pub(crate) proof fn lemma_valid_without(circuit: CircuitModel, node: usize)
    requires
        circuit.wf(),
        valid(circuit),
        circuit.has(node),
    ensures
        valid(without(circuit, node)),
{
    let at = circuit.at(node);
    let after = without(circuit, node);
    assert(circuit.ops[at].node == node);
    assert forall|i: int| 0 <= i < after.ops.len() implies valid_at(#[trigger] after.ops[i]) by {
        let from = if i < at {
            i
        } else {
            i + 1
        };
        assert(after.ops[i] == circuit.ops[from]);
        assert(valid_at(circuit.ops[from]));
    }
}

/// A run of steps with one more is a run of steps.
pub(crate) proof fn lemma_steps_with(out: CircuitModel, inst: InstructionModel)
    requires
        holds_steps(out.ops),
        inst.op is Gate || inst.op is Emit,
    ensures
        holds_steps(out.with(inst).ops),
{
    let after = out.with(inst).ops;
    assert forall|i: int| 0 <= i < after.len() implies (#[trigger] after[i]).op is Gate || after[i].op is Emit by {
        if i < out.ops.len() {
            assert(after[i] == out.ops[i]);
        }
    }
}

/// Reading a valid run keeps every emission of a track travelling, and every position's qubits as many as its
/// partition groups.
proof fn lemma_valid_run_reads_well(
    ops: Seq<InstructionModel>,
    num_qubits: nat,
    num_clbits: nat,
    scope: Seq<usize>,
    frame: Seq<usize>,
    state: Reading,
)
    requires
        forall|i: int|
            0 <= i < ops.len() ==> valid_at(#[trigger] ops[i]) && ops[i].wf(num_qubits, num_clbits),
        state.track.travels(),
        state.track.grouped(),
    ensures
        flattened(ops, scope, frame, state) matches Ok(after) ==> after.track.travels()
            && after.track.grouped(),
    decreases ops,
{
    if ops.len() > 0 {
        let front = ops.drop_last();
        assert forall|i: int| 0 <= i < front.len() implies valid_at(#[trigger] front[i]) && front[i].wf(
            num_qubits,
            num_clbits,
        ) by {
            assert(ops[i] == front[i]);
        }
        lemma_valid_run_reads_well(front, num_qubits, num_clbits, scope, frame, state);
        if let Ok(so_far) = flattened(front, scope, frame, state) {
            assert(ops[ops.len() - 1] == ops.last());
            lemma_valid_one_reads_well(ops.last(), num_qubits, num_clbits, scope, frame, so_far);
        }
    }
}

proof fn lemma_valid_one_reads_well(
    inst: InstructionModel,
    num_qubits: nat,
    num_clbits: nat,
    scope: Seq<usize>,
    frame: Seq<usize>,
    state: Reading,
)
    requires
        valid_at(inst),
        inst.wf(num_qubits, num_clbits),
        state.track.travels(),
        state.track.grouped(),
    ensures
        flattened_one(inst, scope, frame, state) matches Ok(after) ==> after.track.travels()
            && after.track.grouped(),
    decreases inst,
{
    if let Ok(after) = flattened_one(inst, scope, frame, state) {
        let qubits = through(frame, inst.qubits);
        if inst.op.collect() is None && inst.op.is_box() && inst.blocks.len() > 0 {
            let body = inst.blocks[0];
            assert(body.wf());
            assert(valid(body));
            assert(decreases_to!(inst => inst.blocks));
            assert(decreases_to!(inst.blocks => inst.blocks[0]));
            assert(decreases_to!(inst.blocks[0] => inst.blocks[0].ops));
            lemma_valid_run_reads_well(
                body.ops,
                body.num_qubits,
                body.num_clbits,
                scope.push(inst.node),
                qubits,
                state,
            );
        } else {
            let last = state.track.items.len() as int;
            assert forall|i: int| 0 <= i < after.track.items.len() implies ((
            #[trigger] after.track.items[i]) matches ItemModel::Emission(emission, on)
                ==> emission.direction is Some && emission.parts.len() > 0 && on.len() == total(
                emission.partition,
            )) by {
                if i < last {
                    assert(after.track.items[i] == state.track.items[i]);
                } else {
                    assert(i == last);
                }
            }
            assert forall|c: int| 0 <= c < after.track.collectors.len() implies (
            #[trigger] after.track.collectors[c]).qubits.len() == total(
                after.track.collectors[c].partition,
            ) by {
                if c < state.track.collectors.len() {
                    assert(after.track.collectors[c] == state.track.collectors[c]);
                } else {
                    lemma_lined_up(inst, frame);
                    lemma_reindexed_total(
                        inst.op.collect()->0.partition,
                        ascent(through(frame, inst.qubits)),
                    );
                }
            }
        }
    }
}

/// Whether every emission of a run outside a collector is still travelling.
pub open spec fn emissions_travel(ops: Seq<InstructionModel>) -> bool
    decreases ops,
{
    forall|i: int| 0 <= i < ops.len() ==> emission_travels(#[trigger] ops[i])
}

/// Whether one instruction is an emission still travelling, or a box of such, or something else.
pub open spec fn emission_travels(inst: InstructionModel) -> bool
    decreases inst,
{
    &&& inst.op.is_content_box() && inst.blocks.len() == 1 ==> emissions_travel(inst.blocks[0].ops)
    &&& inst.op matches OperationModel::Emit(emit) ==> travelling(emit)
}

/// Reading a run on which every emission travels keeps those of a track travelling.
proof fn lemma_travelling_run_reads_on(
    ops: Seq<InstructionModel>,
    scope: Seq<usize>,
    frame: Seq<usize>,
    state: Reading,
)
    requires
        emissions_travel(ops),
        state.track.travels(),
    ensures
        flattened(ops, scope, frame, state) matches Ok(after) ==> after.track.travels(),
    decreases ops,
{
    if ops.len() > 0 {
        let front = ops.drop_last();
        let inst = ops.last();
        let last = ops.len() - 1;
        assert(emission_travels(ops[last]));
        assert(emissions_travel(front)) by {
            assert forall|i: int| 0 <= i < front.len() implies emission_travels(#[trigger] front[i]) by {
                assert(ops[i] == front[i]);
                assert(emission_travels(ops[i]));
            }
        }
        lemma_travelling_run_reads_on(front, scope, frame, state);
        if let Ok(so_far) = flattened(front, scope, frame, state) {
            if let Ok(after) = flattened_one(inst, scope, frame, so_far) {
                if inst.op.collect() is None && inst.op.is_box() && inst.blocks.len() > 0 {
                    assert(decreases_to!(ops => ops[last]));
                    assert(decreases_to!(ops[last] => ops[last].blocks));
                    assert(decreases_to!(ops[last].blocks => ops[last].blocks[0]));
                    assert(decreases_to!(ops[last].blocks[0] => ops[last].blocks[0].ops));
                    lemma_travelling_run_reads_on(
                        inst.blocks[0].ops,
                        scope.push(inst.node),
                        through(frame, inst.qubits),
                        so_far,
                    );
                } else {
                    let count = so_far.track.items.len() as int;
                    assert forall|i: int| 0 <= i < after.track.items.len() implies ((
                    #[trigger] after.track.items[i]) matches ItemModel::Emission(emission, _)
                        ==> emission.direction is Some && emission.parts.len() > 0) by {
                        if i < count {
                            assert(after.track.items[i] == so_far.track.items[i]);
                        }
                    }
                }
            }
        }
    }
}

/// A circuit on which every emission outside a collector travels reads as a track on which every one does.
pub proof fn lemma_travelling_reads_well(circuit: CircuitModel, params: Seq<ParamsModel>)
    requires
        emissions_travel(circuit.ops),
    ensures
        reading_of(circuit) matches Ok(reading) ==> ranged(reading.track, params).travels(),
{
    lemma_travelling_run_reads_on(
        circuit.ops,
        Seq::empty(),
        range(0, circuit.num_qubits),
        Reading {
            track: TrackModel { items: Seq::empty(), collectors: Seq::empty() },
            angles: Seq::empty(),
        },
    );
}

/// A valid circuit reads as a track on which every emission is still travelling, so that nothing but its size
/// can keep it from being lowered.
pub proof fn lemma_valid_reads_well(circuit: CircuitModel, params: Seq<ParamsModel>)
    requires
        circuit.wf(),
        valid(circuit),
    ensures
        names_synthesizers(circuit.ops),
        lowerable(circuit.ops),
        reading_of(circuit) matches Ok(reading) ==> ranged(reading.track, params).travels() && ranged(
            reading.track,
            params,
        ).grouped(),
{
    lemma_valid_is_lowerable(circuit);
    lemma_lowerable_names_synthesizers(circuit.ops);
    lemma_valid_run_reads_well(
        circuit.ops,
        circuit.num_qubits,
        circuit.num_clbits,
        Seq::empty(),
        range(0, circuit.num_qubits),
        Reading {
            track: TrackModel { items: Seq::empty(), collectors: Seq::empty() },
            angles: Seq::empty(),
        },
    );
    if let Ok(reading) = reading_of(circuit) {
        let track = ranged(reading.track, params);
        let reach = join_reach(params, reading.track.collectors);
        lemma_joined_keeps_shape(params, reading.track.collectors, reach);
        assert forall|c: int| 0 <= c < track.collectors.len() implies (
        #[trigger] track.collectors[c]).qubits.len() == total(track.collectors[c].partition) by {
            assert(reading.track.collectors[c].qubits.len() == total(
                reading.track.collectors[c].partition,
            ));
        }
    }
}

/// Joining parameters to collectors changes nothing else about them.
proof fn lemma_joined_keeps_shape(
    params: Seq<ParamsModel>,
    collectors: Seq<FlatCollector>,
    count: nat,
)
    ensures
        joined(params, collectors, count).len() == collectors.len(),
        forall|c: int|
            0 <= c < collectors.len() ==> (#[trigger] joined(params, collectors, count)[c]).qubits
                == collectors[c].qubits && joined(params, collectors, count)[c].partition
                == collectors[c].partition,
{
}

} // verus!
