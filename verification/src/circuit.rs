//! Circuits: instructions on numbered wires, boxes holding circuits of their own.
//!
//! A circuit lists its instructions in an order that respects the wires: what comes first on a wire is
//! listed first. Each instruction goes by a node number that stays with it when others come and go, so a
//! plan made against a circuit can be carried out on it afterwards.

use vstd::prelude::*;
use vstd::string::*;

use crate::annotated_circuit::annotations_model;
use crate::annotated_circuit::Annotation;
use crate::annotated_circuit::AnnotationModel;
use crate::emission_circuit::Collect;
use crate::emission_circuit::CollectModel;
use crate::emission_circuit::Emit;
use crate::emission_circuit::EmitModel;
use crate::emission_circuit::EMIT_NAME;
use crate::parameters::params_model;
use crate::parameters::Param;
use crate::parameters::ParamModel;
use crate::partition::total;
use crate::standard_gate::StandardGate;

verus! {

/// How long a box lasts, known by a handle to whoever owns it.
#[derive(Debug, Clone, Copy, PartialEq, Eq, Structural)]
pub struct BoxDuration {
    pub handle: u64,
}

/// An operation this crate carries without reading it, known by its name and by a handle to whoever owns
/// it.
#[derive(Debug, PartialEq, Eq)]
pub struct OpaqueOp {
    pub name: String,
    pub handle: u64,
}

impl Clone for OpaqueOp {
    fn clone(&self) -> (copy: Self)
        ensures
            copy == *self,
    {
        OpaqueOp { name: self.name.clone(), handle: self.handle }
    }
}

/// What an instruction does.
#[derive(Debug, PartialEq, Eq)]
pub enum Operation {
    /// A gate of the standard library.
    Gate(StandardGate),
    /// An emission.
    Emit(Emit),
    /// A box: a circuit of its own, with what is declared about it.
    Box { annotations: Vec<Annotation>, duration: Option<BoxDuration> },
    /// Control flow that is not a box.
    ControlFlow(OpaqueOp),
    Measure,
    Reset,
    /// Anything else.
    Other(OpaqueOp),
}

/// What an operation says.
pub enum OperationModel {
    Gate(StandardGate),
    Emit(EmitModel),
    Box { annotations: Seq<AnnotationModel>, duration: Option<BoxDuration> },
    ControlFlow(OpaqueOp),
    Measure,
    Reset,
    Other(OpaqueOp),
}

impl View for Operation {
    type V = OperationModel;

    open spec fn view(&self) -> OperationModel {
        match self {
            Operation::Gate(gate) => OperationModel::Gate(*gate),
            Operation::Emit(emit) => OperationModel::Emit(emit@),
            Operation::Box { annotations, duration } => OperationModel::Box {
                annotations: annotations_model(annotations@),
                duration: *duration,
            },
            Operation::ControlFlow(op) => OperationModel::ControlFlow(*op),
            Operation::Measure => OperationModel::Measure,
            Operation::Reset => OperationModel::Reset,
            Operation::Other(op) => OperationModel::Other(*op),
        }
    }
}

/// A copy of a list of annotations.
pub fn clone_annotations(annotations: &Vec<Annotation>) -> (copy: Vec<Annotation>)
    ensures
        annotations_model(copy@) == annotations_model(annotations@),
{
    let mut copy: Vec<Annotation> = Vec::new();
    let mut i: usize = 0;
    while i < annotations.len()
        invariant
            i <= annotations.len(),
            copy.len() == i,
            forall|k: int| 0 <= k < i ==> (#[trigger] copy@[k])@ == annotations@[k]@,
        decreases annotations.len() - i,
    {
        copy.push(annotations[i].clone());
        i += 1;
    }
    assert(annotations_model(copy@) =~= annotations_model(annotations@));
    copy
}

impl Clone for Operation {
    fn clone(&self) -> (copy: Self)
        ensures
            copy@ == self@,
    {
        match self {
            Operation::Gate(gate) => Operation::Gate(*gate),
            Operation::Emit(emit) => Operation::Emit(emit.clone()),
            Operation::Box { annotations, duration } => Operation::Box {
                annotations: clone_annotations(annotations),
                duration: *duration,
            },
            Operation::ControlFlow(op) => Operation::ControlFlow(op.clone()),
            Operation::Measure => Operation::Measure,
            Operation::Reset => Operation::Reset,
            Operation::Other(op) => Operation::Other(op.clone()),
        }
    }
}

impl Operation {
    /// The name the operation goes by.
    pub fn name(&self) -> (name: &str)
        ensures
            name@ == self@.name_text(),
    {
        match self {
            Operation::Gate(gate) => gate.name(),
            Operation::Emit(_) => EMIT_NAME,
            Operation::Box { .. } => "box",
            Operation::ControlFlow(op) => op.name.as_str(),
            Operation::Measure => "measure",
            Operation::Reset => "reset",
            Operation::Other(op) => op.name.as_str(),
        }
    }
}

/// The first collect annotation among a box's annotations.
pub open spec fn first_collect(annotations: Seq<AnnotationModel>) -> Option<CollectModel>
    decreases annotations.len(),
{
    if annotations.len() == 0 {
        None
    } else {
        match annotations[0] {
            AnnotationModel::Collect(collect) => Some(collect),
            _ => first_collect(annotations.drop_first()),
        }
    }
}

impl OperationModel {
    /// The name the operation goes by.
    pub open spec fn name_text(self) -> Seq<char> {
        match self {
            OperationModel::Gate(gate) => gate.name_text(),
            OperationModel::Emit(_) => EMIT_NAME@,
            OperationModel::Box { .. } => "box"@,
            OperationModel::ControlFlow(op) => op.name@,
            OperationModel::Measure => "measure"@,
            OperationModel::Reset => "reset"@,
            OperationModel::Other(op) => op.name@,
        }
    }

    /// Whether the operation is a box.
    pub open spec fn is_box(self) -> bool {
        self is Box
    }

    /// The collect annotation the operation carries, if it is a box with one.
    pub open spec fn collect(self) -> Option<CollectModel> {
        match self {
            OperationModel::Box { annotations, .. } => first_collect(annotations),
            _ => None,
        }
    }

    /// Whether the operation is a collect box.
    pub open spec fn is_collector(self) -> bool {
        self.collect() is Some
    }

    /// Whether the operation is a box with content to step into: any but a collect box.
    pub open spec fn is_content_box(self) -> bool {
        self.is_box() && !self.is_collector()
    }

    /// Whether the operation can stand on this many qubits.
    pub open spec fn fits(self, width: nat) -> bool {
        match self {
            OperationModel::Gate(gate) => gate.width() == width,
            OperationModel::Emit(emit) => total(emit.partition) == width,
            _ => true,
        }
    }
}

/// A circuit.
#[derive(Debug, PartialEq, Eq)]
pub struct Circuit {
    pub num_qubits: usize,
    pub num_clbits: usize,
    /// The instructions, in an order that respects the wires.
    pub ops: Vec<Instruction>,
}

/// One instruction of a circuit: an operation, the wires it is on, its parameters, and the circuits it
/// holds.
#[derive(Debug, PartialEq, Eq)]
pub struct Instruction {
    pub node: usize,
    pub op: Operation,
    pub qubits: Vec<usize>,
    pub clbits: Vec<usize>,
    pub params: Vec<Param>,
    pub blocks: Vec<Circuit>,
}

/// What a circuit says.
#[verifier::ext_equal]
pub struct CircuitModel {
    pub num_qubits: nat,
    pub num_clbits: nat,
    pub ops: Seq<InstructionModel>,
}

/// What an instruction says.
#[verifier::ext_equal]
pub struct InstructionModel {
    pub node: usize,
    pub op: OperationModel,
    pub qubits: Seq<usize>,
    pub clbits: Seq<usize>,
    pub params: Seq<ParamModel>,
    pub blocks: Seq<CircuitModel>,
}

impl View for Circuit {
    type V = CircuitModel;

    open spec fn view(&self) -> CircuitModel
        decreases self,
    {
        CircuitModel {
            num_qubits: self.num_qubits as nat,
            num_clbits: self.num_clbits as nat,
            ops: Seq::new(
                self.ops@.len(),
                |i: int|
                    if 0 <= i < self.ops@.len() {
                        self.ops@[i].view()
                    } else {
                        arbitrary()
                    },
            ),
        }
    }
}

impl View for Instruction {
    type V = InstructionModel;

    open spec fn view(&self) -> InstructionModel
        decreases self,
    {
        InstructionModel {
            node: self.node,
            op: self.op@,
            qubits: self.qubits@,
            clbits: self.clbits@,
            params: params_model(self.params@),
            blocks: Seq::new(
                self.blocks@.len(),
                |i: int|
                    if 0 <= i < self.blocks@.len() {
                        self.blocks@[i].view()
                    } else {
                        arbitrary()
                    },
            ),
        }
    }
}

/// Whether a list of wires names each at most once, all below a limit.
pub open spec fn wires_below(wires: Seq<usize>, limit: nat) -> bool {
    &&& wires.len() <= usize::MAX
    &&& wires.no_duplicates()
    &&& forall|k: int| 0 <= k < wires.len() ==> (#[trigger] wires[k]) < limit
}

impl InstructionModel {
    /// Whether the instruction is well formed on this many wires: its wires are among them, its
    /// operation is as wide as its wires are many, and so is each circuit it holds.
    pub open spec fn wf(self, num_qubits: nat, num_clbits: nat) -> bool
        decreases self,
    {
        &&& wires_below(self.qubits, num_qubits)
        &&& wires_below(self.clbits, num_clbits)
        &&& self.op.fits(self.qubits.len())
        &&& forall|b: int|
            0 <= b < self.blocks.len() ==> (#[trigger] self.blocks[b]).num_qubits
                == self.qubits.len() && self.blocks[b].num_clbits == self.clbits.len()
                && self.blocks[b].wf()
    }

    /// Whether the instruction is on a wire.
    pub open spec fn touches(self, qubit: usize) -> bool {
        self.qubits.contains(qubit)
    }

    /// Where the wire comes among the instruction's own.
    pub open spec fn local(self, qubit: usize) -> usize {
        self.qubits.index_of(qubit) as usize
    }
}

impl CircuitModel {
    /// Whether the circuit is well formed: no two instructions share a node number, and each is well
    /// formed on the circuit's wires.
    pub open spec fn wf(self) -> bool
        decreases self,
    {
        &&& forall|i: int, j: int|
            0 <= i < j < self.ops.len() ==> (#[trigger] self.ops[i]).node != (
            #[trigger] self.ops[j]).node
        &&& forall|i: int|
            0 <= i < self.ops.len() ==> (#[trigger] self.ops[i]).wf(
                self.num_qubits,
                self.num_clbits,
            )
    }

    /// Whether some instruction goes by this node number.
    pub open spec fn has(self, node: usize) -> bool {
        exists|i: int| 0 <= i < self.ops.len() && (#[trigger] self.ops[i]).node == node
    }

    /// The position of the instruction going by a node number.
    pub open spec fn at(self, node: usize) -> int {
        choose|i: int| 0 <= i < self.ops.len() && (#[trigger] self.ops[i]).node == node
    }

    /// The instruction going by a node number.
    pub open spec fn get(self, node: usize) -> InstructionModel {
        self.ops[self.at(node)]
    }

    /// Whether the node numbers are the positions, which is how a circuit is written in the first
    /// place.
    pub open spec fn fresh(self) -> bool {
        forall|i: int| 0 <= i < self.ops.len() ==> (#[trigger] self.ops[i]).node == i
    }

    /// The circuit with one more instruction at its end.
    pub open spec fn with(self, instruction: InstructionModel) -> CircuitModel {
        CircuitModel { ops: self.ops.push(instruction), ..self }
    }

    /// An empty circuit.
    pub open spec fn bare(num_qubits: nat, num_clbits: nat) -> CircuitModel {
        CircuitModel { num_qubits, num_clbits, ops: Seq::empty() }
    }
}

/// How many instructions a run holds, those inside other instructions counted too.
pub open spec fn run_size(ops: Seq<InstructionModel>) -> nat
    decreases ops,
{
    if ops.len() == 0 {
        0
    } else {
        run_size(ops.drop_last()) + 1 + blocks_size(ops.last().blocks)
    }
}

/// How many instructions a list of circuits holds at any depth.
pub open spec fn blocks_size(blocks: Seq<CircuitModel>) -> nat
    decreases blocks,
{
    if blocks.len() == 0 {
        0
    } else {
        blocks_size(blocks.drop_last()) + run_size(blocks.last().ops)
    }
}

/// A prefix of a run holds no more than the run.
pub proof fn lemma_run_size_take(ops: Seq<InstructionModel>, k: int)
    requires
        0 <= k <= ops.len(),
    ensures
        run_size(ops.take(k)) <= run_size(ops),
        k <= run_size(ops.take(k)),
    decreases ops.len(),
{
    if k < ops.len() {
        lemma_run_size_take(ops.drop_last(), k);
        assert(ops.drop_last().take(k) =~= ops.take(k));
    } else {
        assert(ops.take(k) =~= ops);
        if k > 0 {
            lemma_run_size_take(ops.drop_last(), k - 1);
            assert(ops.drop_last().take(k - 1) =~= ops.drop_last());
        }
    }
}

/// The only circuit in a list of one is all the list holds.
pub proof fn lemma_blocks_size_one(blocks: Seq<CircuitModel>)
    requires
        blocks.len() == 1,
    ensures
        blocks_size(blocks) == run_size(blocks[0].ops),
{
    assert(blocks.drop_last() =~= Seq::<CircuitModel>::empty());
    assert(blocks_size(blocks.drop_last()) == 0);
}

/// The position of a node number is the one position it has.
pub proof fn lemma_at(circuit: CircuitModel, i: int)
    requires
        circuit.wf(),
        0 <= i < circuit.ops.len(),
    ensures
        circuit.has(circuit.ops[i].node),
        circuit.at(circuit.ops[i].node) == i,
{
    let node = circuit.ops[i].node;
    assert(circuit.has(node));
    let j = circuit.at(node);
    assert(circuit.ops[j].node == node);
    if i < j {
        assert(circuit.ops[i].node != circuit.ops[j].node);
    } else if j < i {
        assert(circuit.ops[j].node != circuit.ops[i].node);
    }
}

impl Circuit {
    /// Create an empty circuit with the given dimensions.
    pub fn new(num_qubits: usize, num_clbits: usize) -> (circuit: Self)
        ensures
            circuit@ == CircuitModel::bare(num_qubits as nat, num_clbits as nat),
    {
        let circuit = Circuit { num_qubits, num_clbits, ops: Vec::new() };
        assert(circuit@.ops =~= Seq::<InstructionModel>::empty());
        circuit
    }

    /// The position of the instruction going by a node number.
    pub fn position(&self, node: usize) -> (index: usize)
        requires
            self@.wf(),
            self@.has(node),
        ensures
            index == self@.at(node),
            index < self.ops.len(),
            self.ops@[index as int]@ == self@.get(node),
            self@.get(node).node == node,
    {
        let mut i: usize = 0;
        while i < self.ops.len()
            invariant
                i <= self.ops.len(),
                self@.wf(),
                self@.has(node),
                forall|k: int| 0 <= k < i ==> (#[trigger] self@.ops[k]).node != node,
            decreases self.ops.len() - i,
        {
            assert(self@.ops[i as int] == self.ops@[i as int]@);
            if self.ops[i].node == node {
                proof {
                    lemma_at(self@, i as int);
                }
                return i;
            }
            i += 1;
        }
        proof {
            let k = self@.at(node);
            assert(self@.ops[k].node != node);
            assert(false);
        }
        i
    }

    /// The instruction going by a node number.
    pub fn instruction(&self, node: usize) -> (instruction: &Instruction)
        requires
            self@.wf(),
            self@.has(node),
        ensures
            instruction@ == self@.get(node),
    {
        &self.ops[self.position(node)]
    }
}

} // verus!
