//! Reading a circuit flat: boxes and collect boxes dissolved, and what they hold in circuit order on the circuit's
//! own qubits.
//!
//! Passes move instructions in and out of boxes. What a circuit does is in its flat reading, so what a pass keeps is
//! said of that: which steps there are, and on each qubit in which order.

use vstd::prelude::*;

use crate::circuit::CircuitModel;
use crate::circuit::InstructionModel;
use crate::circuit::OperationModel;
use crate::emission_circuit_navigation::through;
use crate::parameters::ParamModel;

verus! {

/// One step of a circuit: an operation that is no box, what it takes, and the circuit qubits it is on.
#[verifier::ext_equal]
pub struct Step {
    pub op: OperationModel,
    pub params: Seq<ParamModel>,
    pub qubits: Seq<usize>,
}

/// The steps of a run, in circuit order. `frame` says which circuit qubit each wire of the run is.
pub open spec fn flat(ops: Seq<InstructionModel>, frame: Seq<usize>) -> Seq<Step>
    decreases ops,
{
    if ops.len() == 0 {
        Seq::empty()
    } else {
        flat(ops.drop_last(), frame) + flat_of(ops.last(), frame)
    }
}

/// The steps of one instruction: those of what it holds if it is a box, and itself otherwise.
pub open spec fn flat_of(inst: InstructionModel, frame: Seq<usize>) -> Seq<Step>
    decreases inst,
{
    if !inst.op.is_box() {
        seq![Step { op: inst.op, params: inst.params, qubits: through(frame, inst.qubits) }]
    } else if inst.blocks.len() == 1 {
        flat(inst.blocks[0].ops, through(frame, inst.qubits))
    } else {
        Seq::empty()
    }
}

/// The wires of a circuit, each as the circuit qubit it is.
pub open spec fn own_qubits(count: nat) -> Seq<usize> {
    Seq::new(count, |k: int| k as usize)
}

/// The steps of a circuit, in circuit order.
pub open spec fn steps_of(circuit: CircuitModel) -> Seq<Step> {
    flat(circuit.ops, own_qubits(circuit.num_qubits))
}

/// Those of some steps that are on a qubit, in the order they come in.
pub open spec fn on_qubit(steps: Seq<Step>, qubit: usize) -> Seq<Step>
    decreases steps.len(),
{
    if steps.len() == 0 {
        Seq::empty()
    } else {
        let before = on_qubit(steps.drop_last(), qubit);
        if steps.last().qubits.contains(qubit) {
            before.push(steps.last())
        } else {
            before
        }
    }
}

/// The steps of one run after another.
pub proof fn lemma_flat_add(
    left: Seq<InstructionModel>,
    right: Seq<InstructionModel>,
    frame: Seq<usize>,
)
    ensures
        flat(left + right, frame) == flat(left, frame) + flat(right, frame),
    decreases right.len(),
{
    if right.len() == 0 {
        assert(left + right =~= left);
        assert(flat(left, frame) + Seq::<Step>::empty() =~= flat(left, frame));
    } else {
        lemma_flat_add(left, right.drop_last(), frame);
        assert((left + right).drop_last() =~= left + right.drop_last());
        assert((left + right).last() == right.last());
        assert(flat(left, frame) + flat(right.drop_last(), frame) + flat_of(right.last(), frame)
            =~= flat(left, frame) + flat(right, frame));
    }
}

pub proof fn lemma_flat_one(inst: InstructionModel, frame: Seq<usize>)
    ensures
        flat(seq![inst], frame) == flat_of(inst, frame),
{
    let one = seq![inst];
    assert(one.drop_last() =~= Seq::<InstructionModel>::empty());
    assert(flat(one.drop_last(), frame) =~= Seq::<Step>::empty());
    assert(one.last() == inst);
    assert(Seq::<Step>::empty() + flat_of(inst, frame) =~= flat_of(inst, frame));
}

/// The steps of a run with one more instruction.
pub proof fn lemma_flat_push(ops: Seq<InstructionModel>, inst: InstructionModel, frame: Seq<usize>)
    ensures
        flat(ops.push(inst), frame) == flat(ops, frame) + flat_of(inst, frame),
{
    assert(ops.push(inst).drop_last() =~= ops);
}

pub proof fn lemma_on_qubit_add(left: Seq<Step>, right: Seq<Step>, qubit: usize)
    ensures
        on_qubit(left + right, qubit) == on_qubit(left, qubit) + on_qubit(right, qubit),
    decreases right.len(),
{
    if right.len() == 0 {
        assert(left + right =~= left);
        assert(on_qubit(left, qubit) + Seq::<Step>::empty() =~= on_qubit(left, qubit));
    } else {
        lemma_on_qubit_add(left, right.drop_last(), qubit);
        assert((left + right).drop_last() =~= left + right.drop_last());
        assert(on_qubit(left + right, qubit) =~= on_qubit(left, qubit) + on_qubit(right, qubit));
    }
}

/// Reading wires through one frame and then another is reading them through the frame read through the other.
pub proof fn lemma_through_twice(outer: Seq<usize>, inner: Seq<usize>, wires: Seq<usize>)
    requires
        forall|k: int| 0 <= k < wires.len() ==> (#[trigger] wires[k]) < inner.len(),
    ensures
        through(through(outer, inner), wires) == through(outer, through(inner, wires)),
{
    assert(through(through(outer, inner), wires) =~= through(outer, through(inner, wires)));
}

} // verus!
