//! Getting around an emission circuit: addressing an instruction inside nested boxes, reading what a box
//! declares, walking a wire, and rewriting what a walk found.
//!
//! An emission circuit is a nest of boxes, so a bare node number does not identify an instruction: it
//! only does once it is known which circuit it belongs to, which a walk crossing box boundaries no longer
//! does. [`Site`] is the address that does identify one, and every other item here either produces a
//! site, reads through one, or rewrites at one.
//!
//! Three invariants live here rather than in each pass's prose, so that a pass gets them by calling
//! rather than by remembering:
//!
//! - **A walk descends into content, never into a collector.** A collect box is a barrier: its body holds
//!   only what was already absorbed into it, so there is nothing in there for anyone else to reach.
//! - **A walk descends but never ascends.** A cursor climbs back out of a box it descended into, and
//!   stops at the end of the scope it started in.
//! - **A collect box carries exactly one annotation and no duration.** [`collect_op`] mints them that way
//!   and [`collect_annotation`] reads them back.
//!
//! What a walk finds is offered as data as well as by address. A [`Sighting`] is what one position looks
//! like to a rule, and [`WireSights`] and [`EmissionTally`] are the two readings of a body that the rules
//! decide on.

use vstd::prelude::*;

use crate::annotated_circuit::annotations_model;
use crate::annotated_circuit::Annotation;
use crate::annotated_circuit::AnnotationModel;
use crate::circuit::first_collect;
use crate::circuit::lemma_at;
use crate::circuit::lemma_blocks_size_one;
use crate::circuit::lemma_run_size_take;
use crate::circuit::run_size;
use crate::circuit::wires_below;
use crate::circuit::BoxDuration;
use crate::circuit::Circuit;
use crate::circuit::CircuitModel;
use crate::circuit::Instruction;
use crate::circuit::InstructionModel;
use crate::circuit::Operation;
use crate::circuit::OperationModel;
use crate::emission_circuit::Collect;
use crate::emission_circuit::CollectModel;
use crate::emission_circuit::Emit;
use crate::error::SamplexError;
use crate::parameters::clone_params;
use crate::parameters::params_model;
use crate::parameters::Param;
use crate::parameters::ParamModel;
use crate::partition::clone_list;
use crate::virtual_flow_graph::Direction;

verus! {

// --- What an instruction declares ---------------------------------------------------------------

/// Whether an instruction is a `box`.
pub fn is_box(inst: &Instruction) -> (yes: bool)
    ensures
        yes == inst@.op.is_box(),
{
    matches!(inst.op, Operation::Box { .. })
}

/// Whether this instruction is a collect box.
///
/// The borrowing half of [`collect_annotation`], for the many walk sites that only need to know whether
/// to descend, not what the collector holds.
pub fn is_collector(inst: &Instruction) -> (yes: bool)
    ensures
        yes == inst@.op.is_collector(),
{
    box_collect(inst).is_some()
}

/// The [`Collect`] on this instruction, if it is a collector.
pub fn collect_annotation(inst: &Instruction) -> (collect: Option<Collect>)
    ensures
        match collect {
            Some(collect) => inst@.op.collect() == Some(collect@),
            None => inst@.op.collect() is None,
        },
{
    match box_collect(inst) {
        Some(collect) => Some(collect.clone()),
        None => None,
    }
}

/// Borrow the collect annotation off a box's annotations.
///
/// The crate's only read of a box's annotations for its own vocabulary.
fn box_collect(inst: &Instruction) -> (collect: Option<&Collect>)
    ensures
        match collect {
            Some(collect) => inst@.op.collect() == Some(collect@),
            None => inst@.op.collect() is None,
        },
{
    match &inst.op {
        Operation::Box { annotations, .. } => {
            let ghost model = annotations_model(annotations@);
            let mut i: usize = 0;
            assert(model.skip(0) =~= model);
            while i < annotations.len()
                invariant
                    i <= annotations.len(),
                    model == annotations_model(annotations@),
                    inst@.op.collect() == first_collect(model),
                    first_collect(model) == first_collect(model.skip(i as int)),
                decreases annotations.len() - i,
            {
                assert(model.skip(i as int)[0] == annotations@[i as int]@);
                assert(model.skip(i as int).drop_first() =~= model.skip(i + 1));
                if let Annotation::Collect(collect) = &annotations[i] {
                    return Some(collect);
                }
                i += 1;
            }
            None
        },
        _ => None,
    }
}

/// Whether this instruction is an emission.
pub fn is_emission(inst: &Instruction) -> (yes: bool)
    ensures
        yes == (inst@.op is Emit),
{
    matches!(inst.op, Operation::Emit(_))
}

/// The [`Emit`] on this instruction, if it is an emission.
pub fn emission_spec(inst: &Instruction) -> (emit: Option<Emit>)
    ensures
        match emit {
            Some(emit) => inst@.op == OperationModel::Emit(emit@),
            None => !(inst@.op is Emit),
        },
{
    match &inst.op {
        Operation::Emit(emit) => Some(emit.clone()),
        _ => None,
    }
}

/// The single body of an instruction: `None` if it has none, and refused if it has several.
pub open spec fn body_of(inst: InstructionModel) -> Result<Option<CircuitModel>, SamplexError> {
    if inst.blocks.len() == 0 {
        Ok(None)
    } else if inst.blocks.len() == 1 {
        Ok(Some(inst.blocks[0]))
    } else {
        Err(SamplexError::BoxWithoutOneBody)
    }
}

/// Whether borrowed bodies are the bodies a model says.
pub open spec fn same_body(
    result: Result<Option<&Circuit>, SamplexError>,
    said: Result<Option<CircuitModel>, SamplexError>,
) -> bool {
    match said {
        Ok(Some(body)) => result matches Ok(Some(circuit)) && circuit@ == body,
        Ok(None) => result matches Ok(None),
        Err(error) => result matches Err(reported) && reported == error,
    }
}

/// The single body of a box instruction.
pub fn block_body(inst: &Instruction) -> (result: Result<Option<&Circuit>, SamplexError>)
    ensures
        same_body(result, body_of(inst@)),
{
    if inst.blocks.len() == 0 {
        Ok(None)
    } else if inst.blocks.len() == 1 {
        Ok(Some(&inst.blocks[0]))
    } else {
        Err(SamplexError::BoxWithoutOneBody)
    }
}

// --- Addressing an instruction inside the nest --------------------------------------------------

/// The address of one instruction in a nested circuit: the box nodes descended through, outermost first,
/// then the node itself within that innermost scope.
///
/// A scope is a path of node numbers rather than a reference so that a site outlives the borrow that
/// produced it, which is what lets a pass plan against the whole circuit and rewrite it afterwards.
#[derive(PartialEq, Eq, Hash, Debug)]
pub struct Site {
    pub scope: Vec<usize>,
    pub node: usize,
}

/// What a site says.
#[verifier::ext_equal]
pub struct SiteModel {
    pub scope: Seq<usize>,
    pub node: usize,
}

impl SiteModel {
    /// Whether the site is at or below the scope a path names.
    pub open spec fn sits_in(self, base: Seq<usize>) -> bool {
        base.len() <= self.scope.len() && self.scope.take(base.len() as int) == base
    }
}

impl View for Site {
    type V = SiteModel;

    open spec fn view(&self) -> SiteModel {
        SiteModel { scope: self.scope@, node: self.node }
    }
}

impl Clone for Site {
    fn clone(&self) -> (copy: Self)
        ensures
            copy@ == self@,
    {
        Site { scope: clone_list(&self.scope), node: self.node }
    }
}

/// Where a site is, as one list of numbers: the boxes descended through, then the node.
pub open spec fn path_of(site: SiteModel) -> Seq<usize> {
    site.scope.push(site.node)
}

/// Different sites have different paths.
pub proof fn lemma_paths_differ(left: SiteModel, right: SiteModel)
    ensures
        path_of(left) == path_of(right) <==> left == right,
{
    if path_of(left) == path_of(right) {
        assert(left.scope =~= path_of(left).drop_last());
        assert(right.scope =~= path_of(right).drop_last());
        assert(left.node == path_of(left).last());
        assert(right.node == path_of(right).last());
    }
}

/// The circuit of the scope a path names, stepping from box to body.
pub open spec fn scope_of(root: CircuitModel, scope: Seq<usize>) -> Result<
    CircuitModel,
    SamplexError,
>
    decreases scope.len(),
{
    if scope.len() == 0 {
        Ok(root)
    } else {
        match body_of(root.get(scope[0])) {
            Ok(Some(body)) => scope_of(body, scope.drop_first()),
            Ok(None) => Err(SamplexError::ScopeWithoutBody),
            Err(error) => Err(error),
        }
    }
}

/// Whether every node a path steps through is there, as far as the path can be followed.
pub open spec fn path_exists(root: CircuitModel, scope: Seq<usize>) -> bool
    decreases scope.len(),
{
    scope.len() == 0 || (root.has(scope[0]) && (body_of(root.get(scope[0])) matches Ok(Some(body))
        ==> path_exists(body, scope.drop_first())))
}

/// Whether a site names an instruction of the circuit, as far as its path can be followed.
pub open spec fn site_exists(root: CircuitModel, site: SiteModel) -> bool {
    &&& path_exists(root, site.scope)
    &&& scope_of(root, site.scope) matches Ok(circuit) ==> circuit.has(site.node)
}

/// The circuit of the scope a path names.
pub fn scope_dag<'a>(root: &'a Circuit, scope: &[usize]) -> (result: Result<
    &'a Circuit,
    SamplexError,
>)
    requires
        root@.wf(),
        path_exists(root@, scope@),
    ensures
        match scope_of(root@, scope@) {
            Ok(circuit) => result matches Ok(found) && found@ == circuit && circuit.wf(),
            Err(error) => result matches Err(reported) && reported == error,
        },
{
    let mut dag: &'a Circuit = root;
    let mut i: usize = 0;
    assert(scope@.skip(0) =~= scope@);
    while i < scope.len()
        invariant
            i <= scope.len(),
            dag@.wf(),
            path_exists(dag@, scope@.skip(i as int)),
            scope_of(root@, scope@) == scope_of(dag@, scope@.skip(i as int)),
        decreases scope.len() - i,
    {
        assert(scope@.skip(i as int)[0] == scope@[i as int]);
        assert(scope@.skip(i as int).drop_first() =~= scope@.skip(i + 1));
        let inst = dag.instruction(scope[i]);
        match block_body(inst) {
            Err(error) => {
                return Err(error);
            },
            Ok(None) => {
                return Err(SamplexError::ScopeWithoutBody);
            },
            Ok(Some(body)) => {
                dag = body;
            },
        }
        i += 1;
    }
    assert(scope@.skip(i as int) =~= Seq::<usize>::empty());
    Ok(dag)
}

/// What holds of the instruction a site names.
pub open spec fn site_instruction(root: CircuitModel, site: SiteModel) -> Result<
    InstructionModel,
    SamplexError,
> {
    match scope_of(root, site.scope) {
        Ok(circuit) => Ok(circuit.get(site.node)),
        Err(error) => Err(error),
    }
}

/// Wires read through a box's own: the wire at each index.
pub open spec fn through(frame: Seq<usize>, wires: Seq<usize>) -> Seq<usize> {
    wires.map_values(|wire: usize| frame[wire as int])
}

/// Wires of the scope a path names, read in the frame of the scope the path starts in.
pub open spec fn lifted(root: CircuitModel, path: Seq<usize>, wires: Seq<usize>) -> Result<
    Seq<usize>,
    SamplexError,
>
    decreases path.len(),
{
    if path.len() == 0 {
        Ok(wires)
    } else {
        match body_of(root.get(path[0])) {
            Ok(Some(body)) => match lifted(body, path.drop_first(), wires) {
                Ok(inner) => {
                    let frame = root.get(path[0]).qubits;
                    if forall|k: int| 0 <= k < inner.len() ==> (#[trigger] inner[k]) < frame.len() {
                        Ok(through(frame, inner))
                    } else {
                        Err(SamplexError::ContentOffItsBoxWires)
                    }
                },
                Err(error) => Err(error),
            },
            Ok(None) => Err(SamplexError::ScopeWithoutBody),
            Err(error) => Err(error),
        }
    }
}

/// A path that ends in another circuit's path is followed through the circuit it passes.
pub proof fn lemma_scope_of_concat(root: CircuitModel, base: Seq<usize>, rest: Seq<usize>)
    ensures
        scope_of(root, base + rest) == (match scope_of(root, base) {
            Ok(circuit) => scope_of(circuit, rest),
            Err(error) => Err(error),
        }),
        path_exists(root, base + rest) ==> path_exists(root, base) && (scope_of(root, base) matches Ok(
            circuit,
        ) ==> path_exists(circuit, rest)),
        path_exists(root, base) && (scope_of(root, base) matches Ok(circuit) ==> path_exists(
            circuit,
            rest,
        )) ==> path_exists(root, base + rest),
    decreases base.len(),
{
    if base.len() == 0 {
        assert(base + rest =~= rest);
    } else {
        assert((base + rest)[0] == base[0]);
        assert((base + rest).drop_first() =~= base.drop_first() + rest);
        if let Ok(Some(body)) = body_of(root.get(base[0])) {
            lemma_scope_of_concat(body, base.drop_first(), rest);
        }
    }
}

/// The scopes of a well-formed circuit are well formed.
pub proof fn lemma_scope_wf(root: CircuitModel, scope: Seq<usize>)
    requires
        root.wf(),
        path_exists(root, scope),
    ensures
        scope_of(root, scope) matches Ok(circuit) ==> circuit.wf(),
    decreases scope.len(),
{
    if scope.len() > 0 {
        let inst = root.get(scope[0]);
        assert(inst.wf(root.num_qubits, root.num_clbits));
        if let Ok(Some(body)) = body_of(inst) {
            lemma_scope_wf(body, scope.drop_first());
        }
    }
}

impl Site {
    /// Where this site is, as one list of numbers.
    pub fn path(&self) -> (path: Vec<usize>)
        ensures
            path@ == path_of(self@),
    {
        let mut path = clone_list(&self.scope);
        path.push(self.node);
        path
    }

    /// The circuit of the scope this site lives in.
    pub fn scope_dag<'a>(&self, root: &'a Circuit) -> (result: Result<&'a Circuit, SamplexError>)
        requires
            root@.wf(),
            path_exists(root@, self@.scope),
        ensures
            match scope_of(root@, self@.scope) {
                Ok(circuit) => result matches Ok(found) && found@ == circuit && circuit.wf(),
                Err(error) => result matches Err(reported) && reported == error,
            },
    {
        scope_dag(root, self.scope.as_slice())
    }

    /// The instruction this site names.
    pub fn instruction<'a>(&self, root: &'a Circuit) -> (result: Result<
        &'a Instruction,
        SamplexError,
    >)
        requires
            root@.wf(),
            site_exists(root@, self@),
        ensures
            match site_instruction(root@, self@) {
                Ok(inst) => result matches Ok(found) && found@ == inst,
                Err(error) => result matches Err(reported) && reported == error,
            },
    {
        let dag = self.scope_dag(root)?;
        Ok(dag.instruction(self.node))
    }

    /// The body of the box this site names, if it has one.
    pub fn body<'a>(&self, root: &'a Circuit) -> (result: Result<
        Option<&'a Circuit>,
        SamplexError,
    >)
        requires
            root@.wf(),
            site_exists(root@, self@),
        ensures
            match site_instruction(root@, self@) {
                Ok(inst) => same_body(result, body_of(inst)),
                Err(error) => result matches Err(reported) && reported == error,
            },
    {
        let inst = self.instruction(root)?;
        block_body(inst)
    }

    /// The [`Collect`] this site declares, if it is a collector.
    pub fn collector(&self, root: &Circuit) -> (result: Result<Option<Collect>, SamplexError>)
        requires
            root@.wf(),
            site_exists(root@, self@),
        ensures
            match site_instruction(root@, self@) {
                Ok(inst) => match inst.op.collect() {
                    Some(said) => result matches Ok(Some(collect)) && collect@ == said,
                    None => result matches Ok(None),
                },
                Err(error) => result matches Err(reported) && reported == error,
            },
    {
        let inst = self.instruction(root)?;
        Ok(collect_annotation(inst))
    }

    /// The wires this site covers, in its own scope's frame.
    pub fn qubits(&self, root: &Circuit) -> (result: Result<Vec<usize>, SamplexError>)
        requires
            root@.wf(),
            site_exists(root@, self@),
        ensures
            match site_instruction(root@, self@) {
                Ok(inst) => result matches Ok(qubits) && qubits@ == inst.qubits,
                Err(error) => result matches Err(reported) && reported == error,
            },
    {
        let inst = self.instruction(root)?;
        Ok(clone_list(&inst.qubits))
    }

    /// The wires this site covers, lifted into the frame of an enclosing scope.
    ///
    /// Content keeps its position in the frame of whatever takes it over, so content taken out of a
    /// nested body has to be lifted through every box between. `base` must name a scope this site sits at
    /// or below, which a site a walk reached always does, since a cursor never ascends, and anything else is
    /// an error rather than a silent remapping.
    pub fn qubits_in(&self, root: &Circuit, base: &[usize]) -> (result: Result<
        Vec<usize>,
        SamplexError,
    >)
        requires
            root@.wf(),
            self@.sits_in(base@) ==> site_exists(root@, self@),
        ensures
            if !self@.sits_in(base@) {
                result matches Err(reported) && reported == SamplexError::LiftIntoDeeperScope
            } else {
                match scope_of(root@, base@) {
                    Err(error) => result matches Err(reported) && reported == error,
                    Ok(circuit) => match site_instruction(root@, self@) {
                        Err(error) => result matches Err(reported) && reported == error,
                        Ok(inst) => match lifted(
                            circuit,
                            self@.scope.skip(base@.len() as int),
                            inst.qubits,
                        ) {
                            Ok(wires) => result matches Ok(qubits) && qubits@ == wires,
                            Err(error) => result matches Err(reported) && reported == error,
                        },
                    },
                }
            },
    {
        if base.len() > self.scope.len() {
            return Err(SamplexError::LiftIntoDeeperScope);
        }
        let mut i: usize = 0;
        while i < base.len()
            invariant
                i <= base.len() <= self.scope.len(),
                self@.scope == self.scope@,
                forall|k: int| 0 <= k < i ==> self.scope@[k] == (#[trigger] base@[k]),
            decreases base.len() - i,
        {
            if self.scope[i] != base[i] {
                assert(self@.scope.take(base@.len() as int)[i as int] != base@[i as int]);
                return Err(SamplexError::LiftIntoDeeperScope);
            }
            i += 1;
        }
        proof {
            let rest = self@.scope.skip(base@.len() as int);
            assert(self@.scope.take(base@.len() as int) =~= base@);
            assert(base@ + rest =~= self@.scope);
            lemma_scope_of_concat(root@, base@, rest);
        }
        let dag = scope_dag(root, base)?;
        let qubits = self.qubits(root)?;
        lift_wires(dag, &self.scope, base.len(), qubits)
    }

    /// How many classical wires this site covers.
    pub fn num_clbits(&self, root: &Circuit) -> (result: Result<usize, SamplexError>)
        requires
            root@.wf(),
            site_exists(root@, self@),
        ensures
            match site_instruction(root@, self@) {
                Ok(inst) => result matches Ok(count) && count == inst.clbits.len(),
                Err(error) => result matches Err(reported) && reported == error,
            },
    {
        let inst = self.instruction(root)?;
        Ok(inst.clbits.len())
    }

    /// Whether this site sits strictly inside the scope `base` names.
    ///
    /// Depth is the whole test, because a cursor never ascends: a site one reached is at or below the
    /// scope the walk started in, so it is inside exactly when it is deeper.
    pub fn deeper_than(&self, base: &[usize]) -> (deeper: bool)
        ensures
            deeper == (self@.scope.len() > base@.len()),
    {
        self.scope.len() > base.len()
    }
}

/// Map wires from the scope a path names up into the scope the path starts in.
///
/// Private: a caller that has a [`Site`] wants [`Site::qubits_in`], which knows that the path to lift
/// through is the tail of the site's own scope.
#[verifier::loop_isolation(false)]
fn lift_wires(root: &Circuit, path: &Vec<usize>, from: usize, wires: Vec<usize>) -> (result: Result<
    Vec<usize>,
    SamplexError,
>)
    requires
        root@.wf(),
        from <= path.len(),
        path_exists(root@, path@.skip(from as int)),
    ensures
        match lifted(root@, path@.skip(from as int), wires@) {
            Ok(said) => result matches Ok(qubits) && qubits@ == said,
            Err(error) => result matches Err(reported) && reported == error,
        },
    decreases path.len() - from,
{
    if from == path.len() {
        return Ok(wires);
    }
    assert(path@.skip(from as int)[0] == path@[from as int]);
    assert(path@.skip(from as int).drop_first() =~= path@.skip(from + 1));
    let inst = root.instruction(path[from]);
    let ghost frame = inst@.qubits;
    proof {
        assert(inst@.wf(root@.num_qubits, root@.num_clbits));
    }
    let body = match block_body(inst) {
        Err(error) => {
            return Err(error);
        },
        Ok(None) => {
            return Err(SamplexError::ScopeWithoutBody);
        },
        Ok(Some(body)) => body,
    };
    let inner = match lift_wires(body, path, from + 1, wires) {
        Err(error) => {
            return Err(error);
        },
        Ok(inner) => inner,
    };
    let mut out: Vec<usize> = Vec::new();
    let mut k: usize = 0;
    while k < inner.len()
        invariant
            k <= inner.len(),
            inst.qubits@ == frame,
            forall|j: int| 0 <= j < k ==> (#[trigger] inner@[j]) < frame.len(),
            out@ == through(frame, inner@.take(k as int)),
        decreases inner.len() - k,
    {
        if inner[k] >= inst.qubits.len() {
            assert(!(inner@[k as int] < frame.len()));
            return Err(SamplexError::ContentOffItsBoxWires);
        }
        out.push(inst.qubits[inner[k]]);
        assert(out@ =~= through(frame, inner@.take(k + 1)));
        k += 1;
    }
    assert(inner@.take(k as int) =~= inner@);
    Ok(out)
}

/// A circuit with the circuit of one of its scopes put in place of what was there.
pub open spec fn with_scope(
    root: CircuitModel,
    scope: Seq<usize>,
    inner: CircuitModel,
) -> CircuitModel
    decreases scope.len(),
{
    if scope.len() == 0 {
        inner
    } else {
        let at = root.at(scope[0]);
        let inst = root.ops[at];
        CircuitModel {
            ops: root.ops.update(
                at,
                InstructionModel {
                    blocks: seq![with_scope(inst.blocks[0], scope.drop_first(), inner)],
                    ..inst
                },
            ),
            ..root
        }
    }
}

/// Whether a path steps through boxes with exactly one body each, as rewriting at its end needs.
pub open spec fn rewritable(root: CircuitModel, scope: Seq<usize>) -> bool
    decreases scope.len(),
{
    scope.len() == 0 || (root.get(scope[0]).blocks.len() == 1 && rewritable(
        root.get(scope[0]).blocks[0],
        scope.drop_first(),
    ))
}

/// A circuit with the operation and the body of one instruction replaced.
pub open spec fn with_op(
    circuit: CircuitModel,
    node: usize,
    op: OperationModel,
    body: CircuitModel,
) -> CircuitModel {
    CircuitModel {
        ops: circuit.ops.update(
            circuit.at(node),
            InstructionModel {
                op,
                params: Seq::empty(),
                blocks: seq![body],
                ..circuit.get(node)
            },
        ),
        ..circuit
    }
}

/// A circuit without one of its instructions.
pub open spec fn without(circuit: CircuitModel, node: usize) -> CircuitModel {
    CircuitModel { ops: circuit.ops.remove(circuit.at(node)), ..circuit }
}

fn substitute_in(
    root: &mut Circuit,
    scope: &Vec<usize>,
    from: usize,
    node: usize,
    op: Operation,
    body: Circuit,
) -> (result: Result<(), SamplexError>)
    requires
        old(root)@.wf(),
        from <= scope.len(),
        path_exists(old(root)@, scope@.skip(from as int)),
        scope_of(old(root)@, scope@.skip(from as int)) matches Ok(circuit) ==> circuit.has(node),
    ensures
        if rewritable(old(root)@, scope@.skip(from as int)) {
            &&& result is Ok
            &&& scope_of(old(root)@, scope@.skip(from as int)) matches Ok(circuit)
            &&& final(root)@ == with_scope(
                old(root)@,
                scope@.skip(from as int),
                with_op(circuit, node, op@, body@),
            )
        } else {
            &&& result == Err::<(), SamplexError>(SamplexError::ScopeWithoutOneBody)
            &&& final(root)@ == old(root)@
        },
    decreases scope.len() - from,
{
    if from == scope.len() {
        let at = root.position(node);
        let ghost before = root@;
        let ghost said = op@;
        let ghost inner = body@;
        let mut blocks: Vec<Circuit> = Vec::new();
        blocks.push(body);
        root.ops[at].op = op;
        root.ops[at].params = Vec::new();
        root.ops[at].blocks = blocks;
        proof {
            let inst = root.ops@[at as int];
            assert(inst@.blocks =~= seq![inner]);
            assert(inst@.params =~= Seq::<ParamModel>::empty());
            assert(root@.ops =~= with_op(before, node, said, inner).ops);
        }
        return Ok(());
    }
    let ghost rest = scope@.skip(from as int);
    assert(rest[0] == scope@[from as int]);
    assert(rest.drop_first() =~= scope@.skip(from + 1));
    let at = root.position(scope[from]);
    let ghost before = root@;
    proof {
        assert(before.ops[at as int].wf(before.num_qubits, before.num_clbits));
        assert(before.ops[at as int] == root.ops@[at as int]@);
    }
    if root.ops[at].blocks.len() != 1 {
        return Err(SamplexError::ScopeWithoutOneBody);
    }
    let ghost inst = root.ops@[at as int];
    assert(inst@.blocks[0] == inst.blocks@[0]@);
    let result = substitute_in(&mut root.ops[at].blocks[0], scope, from + 1, node, op, body);
    proof {
        let after = root.ops@[at as int];
        assert(after@.blocks =~= seq![after.blocks@[0]@]);
        if rewritable(before, rest) {
            assert(root@.ops =~= with_scope(
                before,
                rest,
                with_op(scope_of(before, rest)->Ok_0, node, op@, body@),
            ).ops);
        } else {
            assert(after@.blocks =~= inst@.blocks);
            assert(root@.ops =~= before.ops);
        }
    }
    result
}

fn remove_in(root: &mut Circuit, scope: &Vec<usize>, from: usize, node: usize) -> (result: Result<
    (),
    SamplexError,
>)
    requires
        old(root)@.wf(),
        from <= scope.len(),
        path_exists(old(root)@, scope@.skip(from as int)),
        scope_of(old(root)@, scope@.skip(from as int)) matches Ok(circuit) ==> circuit.has(node),
    ensures
        if rewritable(old(root)@, scope@.skip(from as int)) {
            &&& result is Ok
            &&& scope_of(old(root)@, scope@.skip(from as int)) matches Ok(circuit)
            &&& final(root)@ == with_scope(
                old(root)@,
                scope@.skip(from as int),
                without(circuit, node),
            )
        } else {
            &&& result == Err::<(), SamplexError>(SamplexError::ScopeWithoutOneBody)
            &&& final(root)@ == old(root)@
        },
    decreases scope.len() - from,
{
    if from == scope.len() {
        let at = root.position(node);
        let ghost before = root@;
        root.ops.remove(at);
        assert(root@.ops =~= without(before, node).ops);
        return Ok(());
    }
    let ghost rest = scope@.skip(from as int);
    assert(rest[0] == scope@[from as int]);
    assert(rest.drop_first() =~= scope@.skip(from + 1));
    let at = root.position(scope[from]);
    let ghost before = root@;
    proof {
        assert(before.ops[at as int].wf(before.num_qubits, before.num_clbits));
        assert(before.ops[at as int] == root.ops@[at as int]@);
    }
    if root.ops[at].blocks.len() != 1 {
        return Err(SamplexError::ScopeWithoutOneBody);
    }
    let ghost inst = root.ops@[at as int];
    assert(inst@.blocks[0] == inst.blocks@[0]@);
    let result = remove_in(&mut root.ops[at].blocks[0], scope, from + 1, node);
    proof {
        let after = root.ops@[at as int];
        assert(after@.blocks =~= seq![after.blocks@[0]@]);
        if rewritable(before, rest) {
            assert(root@.ops =~= with_scope(
                before,
                rest,
                without(scope_of(before, rest)->Ok_0, node),
            ).ops);
        } else {
            assert(after@.blocks =~= inst@.blocks);
            assert(root@.ops =~= before.ops);
        }
    }
    result
}

impl Site {
    /// Replace the operation and body at this site.
    ///
    /// The instruction keeps its node number and its wires, so what it was catching on its wires it goes
    /// on catching.
    pub fn substitute(&self, root: &mut Circuit, op: Operation, body: Circuit) -> (result: Result<
        (),
        SamplexError,
    >)
        requires
            old(root)@.wf(),
            site_exists(old(root)@, self@),
        ensures
            if rewritable(old(root)@, self@.scope) {
                &&& result is Ok
                &&& scope_of(old(root)@, self@.scope) matches Ok(circuit)
                &&& final(root)@ == with_scope(
                    old(root)@,
                    self@.scope,
                    with_op(circuit, self@.node, op@, body@),
                )
            } else {
                &&& result == Err::<(), SamplexError>(SamplexError::ScopeWithoutOneBody)
                &&& final(root)@ == old(root)@
            },
    {
        assert(self.scope@.skip(0) =~= self.scope@);
        substitute_in(root, &self.scope, 0, self.node, op, body)
    }

    /// Delete the instruction at this site from the scope it lives in.
    ///
    /// Every other site stays valid across a removal: a node number stays with its instruction, so the
    /// sites a plan is carrying do not shift under it.
    pub fn remove(&self, root: &mut Circuit) -> (result: Result<(), SamplexError>)
        requires
            old(root)@.wf(),
            site_exists(old(root)@, self@),
        ensures
            if rewritable(old(root)@, self@.scope) {
                &&& result is Ok
                &&& scope_of(old(root)@, self@.scope) matches Ok(circuit)
                &&& final(root)@ == with_scope(
                    old(root)@,
                    self@.scope,
                    without(circuit, self@.node),
                )
            } else {
                &&& result == Err::<(), SamplexError>(SamplexError::ScopeWithoutOneBody)
                &&& final(root)@ == old(root)@
            },
    {
        assert(self.scope@.skip(0) =~= self.scope@);
        remove_in(root, &self.scope, 0, self.node)
    }
}

// --- Sweeping every scope -----------------------------------------------------------------------

/// Which end of the nest a sweep reports first.
///
/// Both orders report every collector exactly once and take circuit order within a scope; they differ
/// only in whether a scope comes before or after the scopes nested inside it. A pass picks the one its
/// rule needs: innermost-first gives a collector inside a box first refusal on the content in there,
/// outermost-first lets a collector be judged against the one nested below it.
#[derive(Clone, Copy, PartialEq, Eq, Structural, Debug)]
pub enum ScopeOrder {
    Innermost,
    Outermost,
}

/// The collectors directly in a scope, in circuit order.
pub open spec fn own_collectors(ops: Seq<InstructionModel>, path: Seq<usize>) -> Seq<SiteModel>
    decreases ops.len(),
{
    if ops.len() == 0 {
        Seq::empty()
    } else if ops.last().op.is_collector() {
        own_collectors(ops.drop_last(), path).push(
            SiteModel { scope: path, node: ops.last().node },
        )
    } else {
        own_collectors(ops.drop_last(), path)
    }
}

/// Why a box cannot be stepped into.
pub open spec fn no_scope(inst: InstructionModel) -> SamplexError {
    if inst.blocks.len() == 0 {
        SamplexError::ScopeWithoutBody
    } else {
        SamplexError::BoxWithoutOneBody
    }
}

/// The collectors in the content boxes of a scope and in every scope nested inside those.
pub open spec fn nested_collectors(
    ops: Seq<InstructionModel>,
    path: Seq<usize>,
    order: ScopeOrder,
) -> Result<Seq<SiteModel>, SamplexError>
    decreases ops, 0nat,
{
    if ops.len() == 0 {
        Ok(Seq::empty())
    } else {
        match nested_collectors(ops.drop_last(), path, order) {
            Err(error) => Err(error),
            Ok(sites) => if !ops.last().op.is_content_box() {
                Ok(sites)
            } else if ops.last().blocks.len() != 1 {
                Err(no_scope(ops.last()))
            } else {
                match swept(ops.last().blocks[0], path.push(ops.last().node), order) {
                    Err(error) => Err(error),
                    Ok(inner) => Ok(sites + inner),
                }
            },
        }
    }
}

/// Every collector in a scope and in the scopes nested inside its content boxes.
pub open spec fn swept(circuit: CircuitModel, path: Seq<usize>, order: ScopeOrder) -> Result<
    Seq<SiteModel>,
    SamplexError,
>
    decreases circuit, 1nat,
{
    match nested_collectors(circuit.ops, path, order) {
        Err(error) => Err(error),
        Ok(inner) => match order {
            ScopeOrder::Innermost => Ok(inner + own_collectors(circuit.ops, path)),
            ScopeOrder::Outermost => Ok(own_collectors(circuit.ops, path) + inner),
        },
    }
}

/// The sites of a list, one by one.
pub open spec fn sites_model(sites: Seq<Site>) -> Seq<SiteModel> {
    sites.map_values(|site: Site| site@)
}

/// Every collector in the circuit, addressed by site.
///
/// Descends through content boxes and never into a collector, so a collector's own body is not swept:
/// what is in there already belongs to it.
pub fn collectors(root: &Circuit, order: ScopeOrder) -> (result: Result<Vec<Site>, SamplexError>)
    ensures
        match swept(root@, Seq::empty(), order) {
            Ok(said) => result matches Ok(sites) && sites_model(sites@) == said,
            Err(error) => result matches Err(reported) && reported == error,
        },
{
    let mut sites: Vec<Site> = Vec::new();
    let mut path: Vec<usize> = Vec::new();
    assert(sites_model(sites@) =~= Seq::<SiteModel>::empty());
    assert(path@ =~= Seq::<usize>::empty());
    match sweep_scope(root, &mut path, order, &mut sites) {
        Err(error) => Err(error),
        Ok(()) => {
            assert(sites_model(sites@) =~= swept(root@, Seq::empty(), order)->Ok_0);
            Ok(sites)
        },
    }
}

fn sweep_scope(
    circuit: &Circuit,
    path: &mut Vec<usize>,
    order: ScopeOrder,
    out: &mut Vec<Site>,
) -> (result: Result<(), SamplexError>)
    ensures
        match swept(circuit@, old(path)@, order) {
            Ok(said) => result is Ok && sites_model(final(out)@) == sites_model(old(out)@) + said
                && final(path)@ == old(path)@,
            Err(error) => result matches Err(reported) && reported == error,
        },
    decreases circuit@, 1nat,
{
    let ghost given = sites_model(out@);
    let ghost said = swept(circuit@, path@, order);
    let ghost nested = nested_collectors(circuit@.ops, path@, order);
    if order == ScopeOrder::Innermost {
        if let Err(error) = sweep_bodies(circuit, path, order, out) {
            return Err(error);
        }
    }
    let ghost start = sites_model(out@);
    let mut i: usize = 0;
    while i < circuit.ops.len()
        invariant
            i <= circuit.ops.len(),
            path@ == old(path)@,
            sites_model(out@) == start + own_collectors(circuit@.ops.take(i as int), path@),
        decreases circuit.ops.len() - i,
    {
        let ghost next = circuit@.ops.take(i + 1);
        assert(next.drop_last() =~= circuit@.ops.take(i as int));
        assert(next.last() == circuit.ops@[i as int]@);
        let ghost before = sites_model(out@);
        if is_collector(&circuit.ops[i]) {
            out.push(Site { scope: clone_list(path), node: circuit.ops[i].node });
            assert(sites_model(out@) =~= before.push(
                SiteModel { scope: path@, node: circuit.ops@[i as int].node },
            ));
            assert(sites_model(out@) =~= start + own_collectors(next, path@));
        }
        i += 1;
    }
    assert(circuit@.ops.take(i as int) =~= circuit@.ops);
    if order == ScopeOrder::Outermost {
        if let Err(error) = sweep_bodies(circuit, path, order, out) {
            return Err(error);
        }
    }
    assert(sites_model(out@) =~= given + said->Ok_0);
    Ok(())
}

fn sweep_bodies(
    circuit: &Circuit,
    path: &mut Vec<usize>,
    order: ScopeOrder,
    out: &mut Vec<Site>,
) -> (result: Result<(), SamplexError>)
    ensures
        match nested_collectors(circuit@.ops, old(path)@, order) {
            Ok(said) => result is Ok && sites_model(final(out)@) == sites_model(old(out)@) + said
                && final(path)@ == old(path)@,
            Err(error) => result matches Err(reported) && reported == error,
        },
    decreases circuit@, 0nat,
{
    let ghost start = sites_model(out@);
    let ghost ops = circuit@.ops;
    let mut i: usize = 0;
    assert(start + Seq::<SiteModel>::empty() =~= start);
    while i < circuit.ops.len()
        invariant
            i <= circuit.ops.len(),
            ops == circuit@.ops,
            path@ == old(path)@,
            nested_collectors(ops.take(i as int), path@, order) matches Ok(said) && sites_model(out@)
                == start + said,
        decreases circuit.ops.len() - i,
    {
        let ghost next = ops.take(i + 1);
        assert(next.drop_last() =~= ops.take(i as int));
        assert(next.last() == circuit.ops@[i as int]@);
        let inst = &circuit.ops[i];
        if is_box(inst) && !is_collector(inst) {
            let body = match block_body(inst) {
                Err(error) => {
                    proof {
                        lemma_nested_prefix(ops, path@, order, i + 1);
                    }
                    return Err(error);
                },
                Ok(None) => {
                    proof {
                        lemma_nested_prefix(ops, path@, order, i + 1);
                    }
                    return Err(SamplexError::ScopeWithoutBody);
                },
                Ok(Some(body)) => body,
            };
            let ghost here = path@;
            path.push(inst.node);
            proof {
                assert(path@ =~= here.push(inst.node));
                assert(decreases_to!(circuit@ => circuit@.ops));
                assert(decreases_to!(circuit@.ops => circuit@.ops[i as int]));
                assert(decreases_to!(circuit@.ops[i as int] => circuit@.ops[i as int].blocks));
                assert(decreases_to!(circuit@.ops[i as int].blocks => circuit@.ops[i as int].blocks[0]));
            }
            let ghost before = sites_model(out@);
            if let Err(error) = sweep_scope(body, path, order, out) {
                proof {
                    lemma_nested_prefix(ops, here, order, i + 1);
                }
                return Err(error);
            }
            path.pop();
            assert(path@ =~= here);
            assert(sites_model(out@) =~= start + nested_collectors(next, here, order)->Ok_0);
        }
        i += 1;
    }
    assert(ops.take(i as int) =~= ops);
    Ok(())
}

proof fn lemma_nested_prefix(
    ops: Seq<InstructionModel>,
    path: Seq<usize>,
    order: ScopeOrder,
    k: int,
)
    requires
        0 <= k <= ops.len(),
        nested_collectors(ops.take(k), path, order) is Err,
    ensures
        nested_collectors(ops, path, order) == nested_collectors(ops.take(k), path, order),
    decreases ops.len() - k,
{
    if k == ops.len() {
        assert(ops.take(k) =~= ops);
    } else {
        assert(ops.take(k + 1).drop_last() =~= ops.take(k));
        lemma_nested_prefix(ops, path, order, k + 1);
    }
}

// --- Walking a wire -----------------------------------------------------------------------------

/// What stands ahead on a wire: a site to stop at, or a box that cannot be descended into.
pub enum Ahead {
    At(SiteModel),
    Broken(SamplexError),
}

/// Why a box reached along a wire cannot be descended into.
pub open spec fn no_descent(inst: InstructionModel) -> SamplexError {
    if inst.blocks.len() == 0 {
        SamplexError::DescentIntoBodylessBox
    } else {
        SamplexError::BoxWithoutOneBody
    }
}

/// What one instruction puts on a wire: nothing if it is not on it, what its body puts there if it is a
/// content box, and itself otherwise.
pub open spec fn on_wire(inst: InstructionModel, path: Seq<usize>, qubit: usize) -> Seq<Ahead>
    decreases inst,
{
    if !inst.touches(qubit) {
        Seq::empty()
    } else if !inst.op.is_content_box() {
        seq![Ahead::At(SiteModel { scope: path, node: inst.node })]
    } else if inst.blocks.len() != 1 {
        seq![Ahead::Broken(no_descent(inst))]
    } else {
        along(inst.blocks[0].ops, path.push(inst.node), inst.local(qubit))
    }
}

/// Everything a wire passes through a run of instructions, in circuit order, content boxes opened up and
/// collect boxes left closed.
pub open spec fn along(ops: Seq<InstructionModel>, path: Seq<usize>, qubit: usize) -> Seq<Ahead>
    decreases ops,
{
    if ops.len() == 0 {
        Seq::empty()
    } else {
        along(ops.drop_last(), path, qubit) + on_wire(ops.last(), path, qubit)
    }
}

/// Everything a wire meets in one scope past a position, nearest first.
pub open spec fn past(
    circuit: CircuitModel,
    path: Seq<usize>,
    at: int,
    qubit: usize,
    direction: Direction,
) -> Seq<Ahead> {
    match direction {
        Direction::Right => along(circuit.ops.skip(at + 1), path, qubit),
        Direction::Left => along(circuit.ops.take(at), path, qubit).reverse(),
    }
}

/// Where a walk along a wire is: the boxes descended through since its start, each with the wire's index
/// in the scope containing that box, then the node it sits on and the wire's index there.
#[verifier::ext_equal]
pub struct WalkModel {
    pub descent: Seq<(usize, usize)>,
    pub node: usize,
    pub qubit: usize,
}

impl WalkModel {
    /// The same position, seen from inside the outermost box descended through.
    pub open spec fn inside(self) -> WalkModel {
        WalkModel { descent: self.descent.drop_first(), ..self }
    }

    /// The nodes descended through.
    pub open spec fn nodes(self) -> Seq<usize> {
        self.descent.map_values(|step: (usize, usize)| step.0)
    }

    /// The index of the walk's wire in the scope it started in.
    pub open spec fn wire(self) -> usize {
        if self.descent.len() == 0 {
            self.qubit
        } else {
            self.descent[0].1
        }
    }
}

/// A walk along a wire that has descended through some boxes to a node.
pub open spec fn walk_to(
    circuit: CircuitModel,
    below: Seq<usize>,
    node: usize,
    qubit: usize,
) -> WalkModel
    decreases below.len(),
{
    if below.len() == 0 {
        WalkModel { descent: Seq::empty(), node, qubit }
    } else {
        let inst = circuit.get(below[0]);
        let inner = walk_to(inst.blocks[0], below.drop_first(), node, inst.local(qubit));
        WalkModel { descent: seq![(below[0], qubit)] + inner.descent, ..inner }
    }
}

/// Whether a walk's position is one a walk in this circuit can be at.
pub open spec fn walk_wf(circuit: CircuitModel, walk: WalkModel) -> bool
    decreases walk.descent.len(),
{
    if walk.descent.len() == 0 {
        circuit.has(walk.node)
    } else {
        let inst = circuit.get(walk.descent[0].0);
        &&& circuit.has(walk.descent[0].0)
        &&& inst.touches(walk.descent[0].1)
        &&& inst.op.is_content_box()
        &&& inst.blocks.len() == 1
        &&& walk.inside().wire() == inst.local(walk.descent[0].1)
        &&& walk_wf(inst.blocks[0], walk.inside())
    }
}

/// Everything a walk has ahead of it, nearest first: the rest of the innermost scope, then the rest of
/// each scope it climbs back out into, up to the one it started in. A wire the node is not on leads
/// nowhere.
pub open spec fn walk_ahead(
    circuit: CircuitModel,
    path: Seq<usize>,
    walk: WalkModel,
    direction: Direction,
) -> Seq<Ahead>
    decreases walk.descent.len(),
{
    if walk.descent.len() == 0 {
        if circuit.get(walk.node).touches(walk.qubit) {
            past(circuit, path, circuit.at(walk.node), walk.qubit, direction)
        } else {
            Seq::empty()
        }
    } else {
        let (node, qubit) = walk.descent[0];
        walk_ahead(circuit.get(node).blocks[0], path.push(node), walk.inside(), direction) + past(
            circuit,
            path,
            circuit.at(node),
            qubit,
            direction,
        )
    }
}

/// Where a walk comes to a stop once nothing is left ahead: on the outermost box it descended into, or
/// where it was.
pub open spec fn walk_spent(walk: WalkModel) -> WalkModel {
    if walk.descent.len() == 0 {
        walk
    } else {
        WalkModel { descent: Seq::empty(), node: walk.descent[0].0, qubit: walk.descent[0].1 }
    }
}

/// A position found by walking.
struct Reached {
    descent: Vec<(usize, usize)>,
    node: usize,
    qubit: usize,
}

impl View for Reached {
    type V = WalkModel;

    closed spec fn view(&self) -> WalkModel {
        WalkModel { descent: self.descent@, node: self.node, qubit: self.qubit }
    }
}

/// Whether a search found what stands first on a wire, leaving exactly the rest ahead.
spec fn found_first(
    circuit: CircuitModel,
    path: Seq<usize>,
    ahead: Seq<Ahead>,
    qubit: usize,
    direction: Direction,
    result: Result<Option<Reached>, SamplexError>,
) -> bool {
    match result {
        Err(error) => ahead.len() > 0 && ahead[0] == Ahead::Broken(error),
        Ok(None) => ahead.len() == 0,
        Ok(Some(reached)) => {
            &&& ahead.len() > 0
            &&& ahead[0] == Ahead::At(
                SiteModel { scope: path + reached@.nodes(), node: reached@.node },
            )
            &&& reached@ == walk_to(circuit, reached@.nodes(), reached@.node, qubit)
            &&& walk_wf(circuit, reached@)
            &&& walk_ahead(circuit, path, reached@, direction) == ahead.drop_first()
        },
    }
}

proof fn lemma_walk_to_wire(circuit: CircuitModel, below: Seq<usize>, node: usize, qubit: usize)
    ensures
        walk_to(circuit, below, node, qubit).wire() == qubit,
        walk_to(circuit, below, node, qubit).node == node,
        walk_to(circuit, below, node, qubit).nodes() == below,
    decreases below.len(),
{
    let walk = walk_to(circuit, below, node, qubit);
    if below.len() == 0 {
        assert(walk.nodes() =~= below);
    } else {
        let inst = circuit.get(below[0]);
        let inner = walk_to(inst.blocks[0], below.drop_first(), node, inst.local(qubit));
        lemma_walk_to_wire(inst.blocks[0], below.drop_first(), node, inst.local(qubit));
        assert(walk.nodes() =~= seq![below[0]] + inner.nodes());
        assert(walk.nodes() =~= below);
    }
}

proof fn lemma_along_concat(
    left: Seq<InstructionModel>,
    right: Seq<InstructionModel>,
    path: Seq<usize>,
    qubit: usize,
)
    ensures
        along(left + right, path, qubit) == along(left, path, qubit) + along(right, path, qubit),
    decreases right.len(),
{
    if right.len() == 0 {
        assert(left + right =~= left);
        assert(along(left, path, qubit) + along(right, path, qubit) =~= along(left, path, qubit));
    } else {
        assert((left + right).drop_last() =~= left + right.drop_last());
        assert((left + right).last() == right.last());
        lemma_along_concat(left, right.drop_last(), path, qubit);
        assert(along(left + right, path, qubit) =~= along(left, path, qubit) + along(
            right,
            path,
            qubit,
        ));
    }
}

proof fn lemma_along_one(inst: InstructionModel, path: Seq<usize>, qubit: usize)
    ensures
        along(seq![inst], path, qubit) == on_wire(inst, path, qubit),
{
    assert(seq![inst].drop_last() =~= Seq::<InstructionModel>::empty());
    assert(along(seq![inst].drop_last(), path, qubit) =~= Seq::<Ahead>::empty());
    assert(along(seq![inst], path, qubit) =~= on_wire(inst, path, qubit));
}

/// Moving a position one instruction on splits that instruction off what lies ahead.
proof fn lemma_past_step(
    circuit: CircuitModel,
    path: Seq<usize>,
    at: int,
    qubit: usize,
    direction: Direction,
)
    requires
        -1 <= at <= circuit.ops.len(),
        direction == Direction::Right ==> at + 1 < circuit.ops.len(),
        direction == Direction::Left ==> at > 0,
    ensures
        direction == Direction::Right ==> past(circuit, path, at, qubit, direction) == on_wire(
            circuit.ops[at + 1],
            path,
            qubit,
        ) + past(circuit, path, at + 1, qubit, direction),
        direction == Direction::Left ==> past(circuit, path, at, qubit, direction) == on_wire(
            circuit.ops[at - 1],
            path,
            qubit,
        ).reverse() + past(circuit, path, at - 1, qubit, direction),
{
    if direction == Direction::Right {
        let inst = circuit.ops[at + 1];
        assert(circuit.ops.skip(at + 1) =~= seq![inst] + circuit.ops.skip(at + 2));
        lemma_along_concat(seq![inst], circuit.ops.skip(at + 2), path, qubit);
        lemma_along_one(inst, path, qubit);
    } else {
        let inst = circuit.ops[at - 1];
        assert(circuit.ops.take(at).drop_last() =~= circuit.ops.take(at - 1));
        assert(circuit.ops.take(at).last() == inst);
        let before = along(circuit.ops.take(at - 1), path, qubit);
        let own = on_wire(inst, path, qubit);
        assert((before + own).reverse() =~= own.reverse() + before.reverse());
    }
}

/// Whether an instruction is on a wire.
fn touches(inst: &Instruction, qubit: usize) -> (yes: bool)
    ensures
        yes == inst@.touches(qubit),
{
    let mut k: usize = 0;
    while k < inst.qubits.len()
        invariant
            k <= inst.qubits.len(),
            forall|j: int| 0 <= j < k ==> inst.qubits@[j] != qubit,
        decreases inst.qubits.len() - k,
    {
        if inst.qubits[k] == qubit {
            return true;
        }
        k += 1;
    }
    false
}

/// Where a wire comes among a list of wires.
pub fn index_on(wires: &Vec<usize>, qubit: usize) -> (index: usize)
    requires
        wires@.contains(qubit),
        wires@.no_duplicates(),
    ensures
        index == wires@.index_of(qubit),
        index < wires.len(),
        wires@[index as int] == qubit,
{
    let mut k: usize = 0;
    while k < wires.len()
        invariant
            k <= wires.len(),
            wires@.contains(qubit),
            wires@.no_duplicates(),
            forall|j: int| 0 <= j < k ==> wires@[j] != qubit,
        decreases wires.len() - k,
    {
        if wires[k] == qubit {
            assert(wires@[wires@.index_of(qubit)] == qubit);
            return k;
        }
        k += 1;
    }
    assert(wires@[wires@.index_of(qubit)] == qubit);
    assert(false);
    k
}

/// Look for the first thing a wire meets in one scope, from a position on.
///
/// Rightward the position counts the instructions already passed, leftward those still to come.
fn search(
    circuit: &Circuit,
    Ghost(path): Ghost<Seq<usize>>,
    from: usize,
    qubit: usize,
    direction: Direction,
) -> (result: Result<Option<Reached>, SamplexError>)
    requires
        circuit@.wf(),
        from <= circuit.ops.len(),
    ensures
        found_first(
            circuit@,
            path,
            past(
                circuit@,
                path,
                if direction == Direction::Right {
                    from - 1
                } else {
                    from as int
                },
                qubit,
                direction,
            ),
            qubit,
            direction,
            result,
        ),
    decreases
            circuit@,
            if direction == Direction::Right {
                circuit.ops.len() - from
            } else {
                from as int
            },
{
    let ghost position = if direction == Direction::Right {
        from - 1
    } else {
        from as int
    };
    let ghost ahead = past(circuit@, path, position, qubit, direction);
    let at: usize = match direction {
        Direction::Right => {
            if from >= circuit.ops.len() {
                assert(circuit@.ops.skip(from as int) =~= Seq::<InstructionModel>::empty());
                return Ok(None);
            }
            from
        },
        Direction::Left => {
            if from == 0 {
                assert(circuit@.ops.take(0) =~= Seq::<InstructionModel>::empty());
                assert(ahead =~= Seq::<Ahead>::empty());
                return Ok(None);
            }
            from - 1
        },
    };
    let next: usize = match direction {
        Direction::Right => from + 1,
        Direction::Left => from - 1,
    };
    let inst = &circuit.ops[at];
    let ghost model = circuit@.ops[at as int];
    let ghost rest = past(circuit@, path, at as int, qubit, direction);
    let ghost own = match direction {
        Direction::Right => on_wire(model, path, qubit),
        Direction::Left => on_wire(model, path, qubit).reverse(),
    };
    proof {
        assert(model == inst@);
        assert(model.wf(circuit@.num_qubits, circuit@.num_clbits));
        lemma_past_step(circuit@, path, position, qubit, direction);
        lemma_at(circuit@, at as int);
        assert(ahead == own + rest);
    }
    if !touches(inst, qubit) {
        proof {
            assert(own =~= Seq::<Ahead>::empty());
            assert(ahead =~= rest);
        }
        return search(circuit, Ghost(path), next, qubit, direction);
    }
    if !is_box(inst) || is_collector(inst) {
        let reached = Reached { descent: Vec::new(), node: inst.node, qubit };
        proof {
            assert(own =~= seq![Ahead::At(SiteModel { scope: path, node: inst.node })]);
            assert(reached@.nodes() =~= Seq::<usize>::empty());
            assert(path + reached@.nodes() =~= path);
            assert(ahead.drop_first() =~= rest);
        }
        return Ok(Some(reached));
    }
    let body = match block_body(inst) {
        Err(error) => {
            assert(own =~= seq![Ahead::Broken(error)]);
            return Err(error);
        },
        Ok(None) => {
            assert(own =~= seq![Ahead::Broken(SamplexError::DescentIntoBodylessBox)]);
            return Err(SamplexError::DescentIntoBodylessBox);
        },
        Ok(Some(body)) => body,
    };
    // The walk only looks at instructions on this wire, so a box reached this way covers it.
    let local = index_on(&inst.qubits, qubit);
    let start: usize = match direction {
        Direction::Right => 0,
        Direction::Left => body.ops.len(),
    };
    proof {
        assert(body@.ops.skip(0) =~= body@.ops);
        assert(body@.ops.take(body@.ops.len() as int) =~= body@.ops);
        assert(decreases_to!(circuit@ => circuit@.ops));
        assert(decreases_to!(circuit@.ops => circuit@.ops[at as int]));
        assert(decreases_to!(circuit@.ops[at as int] => circuit@.ops[at as int].blocks));
        assert(decreases_to!(circuit@.ops[at as int].blocks => circuit@.ops[at as int].blocks[0]));
        assert(own == past(
            body@,
            path.push(inst.node),
            if direction == Direction::Right {
                -1
            } else {
                body@.ops.len() as int
            },
            local,
            direction,
        ));
    }
    match search(body, Ghost(path.push(inst.node)), start, local, direction) {
        Err(error) => Err(error),
        Ok(Some(inner)) => {
            let ghost within = inner@;
            let mut descent: Vec<(usize, usize)> = inner.descent;
            let step: (usize, usize) = (inst.node, qubit);
            descent.insert(0, step);
            let reached = Reached { descent, node: inner.node, qubit: inner.qubit };
            proof {
                assert(reached@.descent =~= seq![step] + within.descent);
                assert(reached@.inside() =~= within);
                assert(reached@.descent[0] == step);
                assert(reached@.nodes().drop_first() =~= within.nodes());
                assert(reached@.nodes()[0] == step.0);
                lemma_walk_to_wire(
                    inst@.blocks[0],
                    within.nodes(),
                    within.node,
                    inst@.local(step.1),
                );
                assert(reached@ =~= walk_to(circuit@, reached@.nodes(), reached@.node, step.1));
                assert(path + reached@.nodes() =~= path.push(inst.node) + within.nodes());
                assert(ahead.drop_first() =~= own.drop_first() + rest);
            }
            Ok(Some(reached))
        },
        Ok(None) => {
            proof {
                assert(own =~= Seq::<Ahead>::empty());
                assert(ahead =~= rest);
            }
            search(circuit, Ghost(path), next, qubit, direction)
        },
    }
}

/// Look for the first thing a walk has ahead of it, climbing out of the boxes it is in as they run out.
fn search_on(
    circuit: &Circuit,
    Ghost(path): Ghost<Seq<usize>>,
    descent: &Vec<(usize, usize)>,
    level: usize,
    node: usize,
    qubit: usize,
    direction: Direction,
) -> (result: Result<Option<Reached>, SamplexError>)
    requires
        circuit@.wf(),
        level <= descent.len(),
        walk_wf(circuit@, WalkModel { descent: descent@.skip(level as int), node, qubit }),
    ensures
        found_first(
            circuit@,
            path,
            walk_ahead(
                circuit@,
                path,
                WalkModel { descent: descent@.skip(level as int), node, qubit },
                direction,
            ),
            WalkModel { descent: descent@.skip(level as int), node, qubit }.wire(),
            direction,
            result,
        ),
    decreases descent.len() - level,
{
    let ghost walk = WalkModel { descent: descent@.skip(level as int), node, qubit };
    if level == descent.len() {
        let at = circuit.position(node);
        if !touches(&circuit.ops[at], qubit) {
            return Ok(None);
        }
        let from: usize = match direction {
            Direction::Right => at + 1,
            Direction::Left => at,
        };
        return search(circuit, Ghost(path), from, qubit, direction);
    }
    let (box_node, outer) = descent[level];
    proof {
        assert(walk.descent[0] == descent@[level as int]);
        assert(walk.inside().descent =~= descent@.skip(level + 1));
    }
    let at = circuit.position(box_node);
    let inst = &circuit.ops[at];
    proof {
        assert(inst@.wf(circuit@.num_qubits, circuit@.num_clbits));
    }
    let body = &inst.blocks[0];
    let ghost inner_ahead = walk_ahead(body@, path.push(box_node), walk.inside(), direction);
    let ghost rest = past(circuit@, path, at as int, outer, direction);
    let ghost ahead = walk_ahead(circuit@, path, walk, direction);
    assert(ahead == inner_ahead + rest);
    match search_on(
        body,
        Ghost(path.push(box_node)),
        descent,
        level + 1,
        node,
        qubit,
        direction,
    ) {
        Err(error) => Err(error),
        Ok(Some(inner)) => {
            let ghost within = inner@;
            let mut steps: Vec<(usize, usize)> = inner.descent;
            let step: (usize, usize) = (box_node, outer);
            steps.insert(0, step);
            let reached = Reached { descent: steps, node: inner.node, qubit: inner.qubit };
            proof {
                assert(reached@.descent =~= seq![step] + within.descent);
                assert(reached@.inside() =~= within);
                assert(reached@.descent[0] == step);
                assert(reached@.nodes().drop_first() =~= within.nodes());
                assert(reached@.nodes()[0] == step.0);
                lemma_walk_to_wire(
                    inst@.blocks[0],
                    within.nodes(),
                    within.node,
                    inst@.local(step.1),
                );
                assert(reached@ =~= walk_to(circuit@, reached@.nodes(), reached@.node, step.1));
                assert(path + reached@.nodes() =~= path.push(box_node) + within.nodes());
                assert(ahead.drop_first() =~= inner_ahead.drop_first() + rest);
            }
            Ok(Some(reached))
        },
        Ok(None) => {
            proof {
                assert(ahead =~= rest);
            }
            let from: usize = match direction {
                Direction::Right => at + 1,
                Direction::Left => at,
            };
            search(circuit, Ghost(path), from, outer, direction)
        },
    }
}

/// A per-wire walk position that can descend into a box body and climb back out.
///
/// One wire, one cursor: a walk over several wires advances each independently, so a wire blocked inside
/// a box stops on its own while another goes on descending. A cursor climbs back out only of boxes it
/// descended into: it never ascends above the scope it started in, which is what keeps a collector inside
/// a box from reaching content outside it.
#[derive(Debug)]
pub struct WireCursor {
    /// The scope the walk started in. Never climbed out of, which is the whole of "descends, never
    /// ascends".
    base: Vec<usize>,
    /// The boxes descended through since the start, each with this wire's index in the scope *containing*
    /// that box.
    descent: Vec<(usize, usize)>,
    /// The node the cursor sits on, in the scope its path names.
    node: usize,
    /// This wire's index in that same scope.
    qubit: usize,
}

/// Where a cursor is: the scope its walk started in, and the walk's position.
#[verifier::ext_equal]
pub struct CursorModel {
    pub base: Seq<usize>,
    pub walk: WalkModel,
}

impl View for WireCursor {
    type V = CursorModel;

    closed spec fn view(&self) -> CursorModel {
        CursorModel {
            base: self.base@,
            walk: WalkModel { descent: self.descent@, node: self.node, qubit: self.qubit },
        }
    }
}

impl CursorModel {
    /// The site the cursor is at.
    pub open spec fn site(self) -> SiteModel {
        SiteModel { scope: self.base + self.walk.nodes(), node: self.walk.node }
    }

    /// Whether the cursor is somewhere in the circuit, as far as the path to its start can be followed.
    pub open spec fn stands_in(self, root: CircuitModel) -> bool {
        &&& path_exists(root, self.base)
        &&& scope_of(root, self.base) matches Ok(circuit) ==> walk_wf(circuit, self.walk)
    }

    /// The cursor once it has come to a site, along the same wire.
    pub open spec fn moved_to(self, root: CircuitModel, site: SiteModel) -> CursorModel {
        CursorModel {
            base: self.base,
            walk: walk_to(
                scope_of(root, self.base)->Ok_0,
                site.scope.skip(self.base.len() as int),
                site.node,
                self.walk.wire(),
            ),
        }
    }

    /// Everything the cursor has ahead of it, nearest first.
    pub open spec fn ahead(self, root: CircuitModel, direction: Direction) -> Seq<Ahead> {
        walk_ahead(scope_of(root, self.base)->Ok_0, self.base, self.walk, direction)
    }
}

impl Clone for WireCursor {
    fn clone(&self) -> (copy: Self)
        ensures
            copy@ == self@,
    {
        WireCursor {
            base: clone_list(&self.base),
            descent: clone_list(&self.descent),
            node: self.node,
            qubit: self.qubit,
        }
    }
}

impl WireCursor {
    /// A cursor sitting at `site`, walking along one of the wires it covers.
    ///
    /// The site's scope becomes the walk's base, so the cursor will never report anything outside it.
    pub fn at(site: &Site, qubit: usize) -> (cursor: Self)
        ensures
            cursor@.base == site@.scope,
            cursor@.walk == (WalkModel { descent: Seq::empty(), node: site@.node, qubit }),
            cursor@.site() == site@,
            forall|root: CircuitModel| #[trigger]
                site_exists(root, site@) ==> cursor@.stands_in(root),
    {
        let cursor = WireCursor {
            base: clone_list(&site.scope),
            descent: Vec::new(),
            node: site.node,
            qubit,
        };
        proof {
            assert(cursor@.walk.descent =~= Seq::<(usize, usize)>::empty());
            assert(cursor@.walk.nodes() =~= Seq::<usize>::empty());
            assert(cursor@.site().scope =~= site@.scope);
        }
        cursor
    }

    /// Where the cursor is now.
    pub fn site(&self) -> (site: Site)
        ensures
            site@ == self@.site(),
    {
        let scope = self.path();
        Site { scope, node: self.node }
    }

    /// The scope the cursor is currently in.
    fn path(&self) -> (path: Vec<usize>)
        ensures
            path@ == self@.base + self@.walk.nodes(),
    {
        let mut path = clone_list(&self.base);
        let mut i: usize = 0;
        while i < self.descent.len()
            invariant
                i <= self.descent.len(),
                path@ == self.base@ + self@.walk.nodes().take(i as int),
            decreases self.descent.len() - i,
        {
            path.push(self.descent[i].0);
            assert(path@ =~= self.base@ + self@.walk.nodes().take(i + 1));
            i += 1;
        }
        assert(self@.walk.nodes().take(i as int) =~= self@.walk.nodes());
        path
    }

    /// The site this wire sees next, and the cursor that reaches it, without moving.
    ///
    /// A peek, not a step: the caller takes the probe only if it takes what the probe found, which is how
    /// a walk tests a candidate it is still free to refuse.
    pub fn peek(&self, root: &Circuit, direction: Direction) -> (result: Result<
        Option<(Self, Site)>,
        SamplexError,
    >)
        requires
            root@.wf(),
            self@.stands_in(root@),
        ensures
            match scope_of(root@, self@.base) {
                Err(error) => result matches Err(reported) && reported == error,
                Ok(_) => {
                    let ahead = self@.ahead(root@, direction);
                    if ahead.len() == 0 {
                        result matches Ok(None)
                    } else {
                        match ahead[0] {
                            Ahead::Broken(error) => result matches Err(reported) && reported
                                == error,
                            Ahead::At(said) => result matches Ok(Some((probe, site))) && site@
                                == said && probe@ == self@.moved_to(root@, said) && probe@.base
                                == self@.base && probe@.site() == said && probe@.stands_in(root@) && probe@.ahead(root@, direction)
                                == ahead.drop_first(),
                        }
                    }
                },
            },
    {
        let mut probe = self.clone();
        match probe.advance(root, direction) {
            Err(error) => Err(error),
            Ok(None) => Ok(None),
            Ok(Some(site)) => Ok(Some((probe, site))),
        }
    }

    /// Advance one operation along this wire, descending into any content box and climbing back out at
    /// the end of a body.
    ///
    /// Returns the site reached, or `None` once the wire has run out in the scope the walk started in. A
    /// collect box is reported rather than descended into: it is a barrier, and that is not the caller's
    /// choice to make. A content box the cursor descends into and finds nothing on this wire is passed
    /// straight through: there is nothing there to reorder against, so it is not a barrier. Where the walk
    /// fails, the cursor stays where it was.
    pub fn advance(&mut self, root: &Circuit, direction: Direction) -> (result: Result<
        Option<Site>,
        SamplexError,
    >)
        requires
            root@.wf(),
            old(self)@.stands_in(root@),
        ensures
            match scope_of(root@, old(self)@.base) {
                Err(error) => result matches Err(reported) && reported == error && final(self)@
                    == old(self)@,
                Ok(_) => {
                    let ahead = old(self)@.ahead(root@, direction);
                    if ahead.len() == 0 {
                        result matches Ok(None) && final(self)@ == (CursorModel {
                            base: old(self)@.base,
                            walk: walk_spent(old(self)@.walk),
                        })
                    } else {
                        match ahead[0] {
                            Ahead::Broken(error) => result matches Err(reported) && reported
                                == error && final(self)@ == old(self)@,
                            Ahead::At(said) => result matches Ok(Some(site)) && site@ == said
                                && final(self)@ == old(self)@.moved_to(root@, said)
                                && final(self)@.base == old(self)@.base && final(self)@.site()
                                == said && final(self)@.stands_in(root@) && final(self)@.ahead(
                                root@,
                                direction,
                            ) == ahead.drop_first(),
                        }
                    }
                },
            },
    {
        let dag = scope_dag(root, self.base.as_slice())?;
        assert(self.descent@.skip(0) =~= self.descent@);
        match search_on(
            dag,
            Ghost(self.base@),
            &self.descent,
            0,
            self.node,
            self.qubit,
            direction,
        ) {
            Err(error) => Err(error),
            Ok(Some(reached)) => {
                self.descent = reached.descent;
                self.node = reached.node;
                self.qubit = reached.qubit;
                assert(self@.walk =~= reached@);
                assert(self@.site().scope.skip(self@.base.len() as int) =~= reached@.nodes());
                Ok(Some(self.site()))
            },
            Ok(None) => {
                if self.descent.len() > 0 {
                    let (node, qubit) = self.descent[0];
                    self.descent = Vec::new();
                    self.node = node;
                    self.qubit = qubit;
                    assert(self@.walk =~= walk_spent(old(self)@.walk));
                }
                Ok(None)
            },
        }
    }
}

/// Whether a site below a scope is one a walk along a wire can stop at: the boxes on the way are content
/// boxes on the wire, and the site itself is on it and is no box to be opened.
pub open spec fn stands_on(
    circuit: CircuitModel,
    below: Seq<usize>,
    node: usize,
    qubit: usize,
) -> bool
    decreases below.len(),
{
    if below.len() == 0 {
        circuit.has(node) && circuit.get(node).touches(qubit) && !circuit.get(
            node,
        ).op.is_content_box()
    } else {
        let inst = circuit.get(below[0]);
        &&& circuit.has(below[0])
        &&& inst.touches(qubit)
        &&& inst.op.is_content_box()
        &&& inst.blocks.len() == 1
        &&& stands_on(inst.blocks[0], below.drop_first(), node, inst.local(qubit))
    }
}

/// Whether everything in a list is below a scope and is something a walk along the wire can stop at.
pub open spec fn all_stand_on(
    circuit: CircuitModel,
    path: Seq<usize>,
    qubit: usize,
    ahead: Seq<Ahead>,
) -> bool {
    forall|k: int|
        0 <= k < ahead.len() ==> ((#[trigger] ahead[k]) matches Ahead::At(site) ==> path.len()
            <= site.scope.len() && site.scope.take(path.len() as int) == path && stands_on(
            circuit,
            site.scope.skip(path.len() as int),
            site.node,
            qubit,
        ))
}

proof fn lemma_on_wire_stands(circuit: CircuitModel, path: Seq<usize>, at: int, qubit: usize)
    requires
        circuit.wf(),
        0 <= at < circuit.ops.len(),
    ensures
        all_stand_on(circuit, path, qubit, on_wire(circuit.ops[at], path, qubit)),
    decreases circuit, 0nat,
{
    let inst = circuit.ops[at];
    lemma_at(circuit, at);
    assert(inst.wf(circuit.num_qubits, circuit.num_clbits));
    let ahead = on_wire(inst, path, qubit);
    if inst.touches(qubit) {
        if !inst.op.is_content_box() {
            assert(path.take(path.len() as int) =~= path);
            assert(path.skip(path.len() as int) =~= Seq::<usize>::empty());
        } else if inst.blocks.len() == 1 {
            let body = inst.blocks[0];
            let inner = path.push(inst.node);
            assert(decreases_to!(circuit => circuit.ops));
            assert(decreases_to!(circuit.ops => circuit.ops[at]));
            assert(decreases_to!(circuit.ops[at] => circuit.ops[at].blocks));
            assert(decreases_to!(circuit.ops[at].blocks => circuit.ops[at].blocks[0]));
            lemma_run_stands(body, inner, body.ops.len() as int, inst.local(qubit));
            assert(body.ops.take(body.ops.len() as int) =~= body.ops);
            assert forall|k: int| 0 <= k < ahead.len() implies ((
            #[trigger] ahead[k]) matches Ahead::At(site) ==> path.len() <= site.scope.len()
                && site.scope.take(path.len() as int) == path && stands_on(
                circuit,
                site.scope.skip(path.len() as int),
                site.node,
                qubit,
            )) by {
                if let Ahead::At(site) = ahead[k] {
                    let below = site.scope.skip(path.len() as int);
                    assert(site.scope.take(inner.len() as int) == inner);
                    assert(site.scope.take(path.len() as int) =~= site.scope.take(
                        inner.len() as int,
                    ).take(path.len() as int));
                    assert(inner.take(path.len() as int) =~= path);
                    assert(below[0] == site.scope.take(inner.len() as int)[path.len() as int]);
                    assert(below.drop_first() =~= site.scope.skip(inner.len() as int));
                }
            }
        }
    }
}

/// Everything a wire passes in the first instructions of a scope is below the scope and is something a walk can stop
/// at.
pub proof fn lemma_run_stands(circuit: CircuitModel, path: Seq<usize>, count: int, qubit: usize)
    requires
        circuit.wf(),
        0 <= count <= circuit.ops.len(),
    ensures
        all_stand_on(circuit, path, qubit, along(circuit.ops.take(count), path, qubit)),
    decreases circuit, 1nat, count,
{
    if count > 0 {
        let run = circuit.ops.take(count);
        assert(run.drop_last() =~= circuit.ops.take(count - 1));
        lemma_run_stands(circuit, path, count - 1, qubit);
        lemma_on_wire_stands(circuit, path, count - 1, qubit);
    }
}

/// Everything a wire meets past a position is below the scope and is something a walk can stop at.
pub proof fn lemma_past_stands(
    circuit: CircuitModel,
    path: Seq<usize>,
    at: int,
    qubit: usize,
    direction: Direction,
)
    requires
        circuit.wf(),
        0 <= at < circuit.ops.len(),
    ensures
        all_stand_on(circuit, path, qubit, past(circuit, path, at, qubit, direction)),
{
    let ops = circuit.ops;
    match direction {
        Direction::Left => {
            lemma_run_stands(circuit, path, at, qubit);
        },
        Direction::Right => {
            lemma_run_stands(circuit, path, ops.len() as int, qubit);
            assert(ops.take(ops.len() as int) =~= ops);
            assert(ops =~= ops.take(at + 1) + ops.skip(at + 1));
            lemma_along_concat(ops.take(at + 1), ops.skip(at + 1), path, qubit);
            let whole = along(ops, path, qubit);
            let before = along(ops.take(at + 1), path, qubit);
            let ahead = past(circuit, path, at, qubit, direction);
            assert forall|k: int| 0 <= k < ahead.len() implies (#[trigger] ahead[k]) == whole[
                before.len() + k
            ] by {}
        },
    }
}

/// A wire can be followed through every box that a sweep can enter.
proof fn lemma_swept_unbroken(
    ops: Seq<InstructionModel>,
    path: Seq<usize>,
    order: ScopeOrder,
    qubit: usize,
)
    requires
        nested_collectors(ops, path, order) is Ok,
    ensures
        forall|k: int|
            0 <= k < along(ops, path, qubit).len() ==> (#[trigger] along(ops, path, qubit)[k]) is At,
    decreases ops,
{
    if ops.len() > 0 {
        let front = ops.drop_last();
        let last = ops.len() - 1;
        let inst = ops[last];
        assert(ops.last() == inst);
        assert(decreases_to!(ops => front));
        lemma_swept_unbroken(front, path, order, qubit);
        let before = along(front, path, qubit);
        let own = on_wire(inst, path, qubit);
        if inst.touches(qubit) && inst.op.is_content_box() {
            assert(decreases_to!(ops => ops[last]));
            assert(decreases_to!(ops[last] => ops[last].blocks));
            assert(decreases_to!(ops[last].blocks => ops[last].blocks[0]));
            assert(decreases_to!(ops[last].blocks[0] => ops[last].blocks[0].ops));
            assert(swept(inst.blocks[0], path.push(inst.node), order) is Ok);
            assert(nested_collectors(inst.blocks[0].ops, path.push(inst.node), order) is Ok);
            lemma_swept_unbroken(
                inst.blocks[0].ops,
                path.push(inst.node),
                order,
                inst.local(qubit),
            );
        }
        assert forall|k: int| 0 <= k < along(ops, path, qubit).len() implies (
        #[trigger] along(ops, path, qubit)[k]) is At by {
            if k < before.len() {
                assert(along(ops, path, qubit)[k] == before[k]);
            } else {
                assert(along(ops, path, qubit)[k] == own[k - before.len()]);
            }
        }
    }
}

/// In a circuit that a sweep can go through, a wire can be followed to its end either way.
pub proof fn lemma_swept_wires_run_on(
    circuit: CircuitModel,
    path: Seq<usize>,
    order: ScopeOrder,
    at: int,
    qubit: usize,
    direction: Direction,
)
    requires
        swept(circuit, path, order) is Ok,
        0 <= at < circuit.ops.len(),
    ensures
        forall|k: int|
            0 <= k < past(circuit, path, at, qubit, direction).len() ==> (
            #[trigger] past(circuit, path, at, qubit, direction)[k]) is At,
{
    let ops = circuit.ops;
    let whole = along(ops, path, qubit);
    let ahead = past(circuit, path, at, qubit, direction);
    lemma_swept_unbroken(ops, path, order, qubit);
    match direction {
        Direction::Left => {
            assert(ops =~= ops.take(at) + ops.skip(at));
            lemma_along_concat(ops.take(at), ops.skip(at), path, qubit);
            let before = along(ops.take(at), path, qubit);
            assert forall|k: int| 0 <= k < ahead.len() implies (#[trigger] ahead[k]) is At by {
                assert(ahead[k] == whole[before.len() - 1 - k]);
            }
        },
        Direction::Right => {
            assert(ops =~= ops.take(at + 1) + ops.skip(at + 1));
            lemma_along_concat(ops.take(at + 1), ops.skip(at + 1), path, qubit);
            let before = along(ops.take(at + 1), path, qubit);
            assert forall|k: int| 0 <= k < ahead.len() implies (#[trigger] ahead[k]) is At by {
                assert(ahead[k] == whole[before.len() + k]);
            }
        },
    }
}

/// A walk never leaves the scope it started in and never enters a collector: every site a cursor has
/// ahead of it lies at or below its start's scope, reached through content boxes on its wire.
pub proof fn lemma_cursor_never_ascends(
    root: CircuitModel,
    site: SiteModel,
    qubit: usize,
    direction: Direction,
)
    requires
        root.wf(),
        site_exists(root, site),
        scope_of(root, site.scope) is Ok,
    ensures
        all_stand_on(
            scope_of(root, site.scope)->Ok_0,
            site.scope,
            qubit,
            walk_ahead(
                scope_of(root, site.scope)->Ok_0,
                site.scope,
                WalkModel { descent: Seq::empty(), node: site.node, qubit },
                direction,
            ),
        ),
{
    lemma_scope_wf(root, site.scope);
    let circuit = scope_of(root, site.scope)->Ok_0;
    let at = circuit.at(site.node);
    assert(circuit.ops[at].node == site.node);
    lemma_past_stands(circuit, site.scope, at, qubit, direction);
}

/// A walk's position is where its wire, its boxes and its node say.
proof fn lemma_walk_is_determined(circuit: CircuitModel, walk: WalkModel)
    requires
        walk_wf(circuit, walk),
    ensures
        walk == walk_to(circuit, walk.nodes(), walk.node, walk.wire()),
    decreases walk.descent.len(),
{
    let nodes = walk.nodes();
    if walk.descent.len() == 0 {
        assert(walk =~= walk_to(circuit, nodes, walk.node, walk.wire()));
    } else {
        let inst = circuit.get(walk.descent[0].0);
        lemma_walk_is_determined(inst.blocks[0], walk.inside());
        assert(walk.inside().nodes() =~= nodes.drop_first());
        assert(walk.descent =~= seq![walk.descent[0]] + walk.inside().descent);
        assert(walk =~= walk_to(circuit, nodes, walk.node, walk.wire()));
    }
}

/// What a wire passes is what is behind a stop on it, the stop, and what is ahead of it.
proof fn lemma_stop_splits_the_wire(
    circuit: CircuitModel,
    path: Seq<usize>,
    below: Seq<usize>,
    node: usize,
    qubit: usize,
)
    requires
        circuit.wf(),
        stands_on(circuit, below, node, qubit),
    ensures
        walk_ahead(circuit, path, walk_to(circuit, below, node, qubit), Direction::Left).reverse()
            + seq![Ahead::At(SiteModel { scope: path + below, node })] + walk_ahead(
            circuit,
            path,
            walk_to(circuit, below, node, qubit),
            Direction::Right,
        ) == along(circuit.ops, path, qubit),
    decreases below.len(),
{
    let walk = walk_to(circuit, below, node, qubit);
    let outermost = if below.len() == 0 {
        node
    } else {
        below[0]
    };
    let at = circuit.at(outermost);
    let inst = circuit.ops[at];
    assert(circuit.get(outermost) == inst);
    assert(inst.wf(circuit.num_qubits, circuit.num_clbits));
    assert(inst.node == outermost);
    let before = along(circuit.ops.take(at), path, qubit);
    let after = along(circuit.ops.skip(at + 1), path, qubit);
    let own = on_wire(inst, path, qubit);
    assert(circuit.ops =~= circuit.ops.take(at) + (seq![inst] + circuit.ops.skip(at + 1)));
    lemma_along_concat(circuit.ops.take(at), seq![inst] + circuit.ops.skip(at + 1), path, qubit);
    lemma_along_concat(seq![inst], circuit.ops.skip(at + 1), path, qubit);
    lemma_along_one(inst, path, qubit);
    assert(before.reverse().reverse() =~= before);
    let stop = seq![Ahead::At(SiteModel { scope: path + below, node })];
    let left = walk_ahead(circuit, path, walk, Direction::Left);
    let right = walk_ahead(circuit, path, walk, Direction::Right);
    if below.len() == 0 {
        assert(path + below =~= path);
        assert(left.reverse() + stop + right =~= before + (own + after));
    } else {
        let body = inst.blocks[0];
        let rest = below.drop_first();
        let local = inst.local(qubit);
        let inner = walk_to(body, rest, node, local);
        let here = path.push(below[0]);
        lemma_stop_splits_the_wire(body, here, rest, node, local);
        assert(here + rest =~= path + below);
        assert(walk.inside() =~= inner);
        let inner_left = walk_ahead(body, here, inner, Direction::Left);
        let inner_right = walk_ahead(body, here, inner, Direction::Right);
        assert(left == inner_left + before.reverse());
        assert(right == inner_right + after);
        assert(left.reverse() =~= before + inner_left.reverse());
        assert(left.reverse() + stop + right =~= before + ((inner_left.reverse() + stop + inner_right)
            + after));
    }
}

/// Stepping back undoes a step: from where a cursor has come to, the first thing in the other direction is where
/// it was, and going there puts it back, across the boundaries of boxes and past boxes with nothing on its wire.
pub proof fn lemma_stepping_back_undoes_a_step(
    root: CircuitModel,
    cursor: CursorModel,
    direction: Direction,
)
    requires
        root.wf(),
        cursor.stands_in(root),
        scope_of(root, cursor.base) is Ok,
        stands_on(
            scope_of(root, cursor.base)->Ok_0,
            cursor.walk.nodes(),
            cursor.walk.node,
            cursor.walk.wire(),
        ),
        cursor.ahead(root, direction).len() > 0,
        cursor.ahead(root, direction)[0] is At,
    ensures
        ({
            let stepped = cursor.moved_to(root, cursor.ahead(root, direction)[0]->At_0);
            let back = stepped.ahead(root, direction.opposite_of());
            &&& back.len() > 0
            &&& back[0] == Ahead::At(cursor.site())
            &&& stepped.moved_to(root, cursor.site()) == cursor
        }),
{
    lemma_scope_wf(root, cursor.base);
    let circuit = scope_of(root, cursor.base)->Ok_0;
    let path = cursor.base;
    let wire = cursor.walk.wire();
    let below = cursor.walk.nodes();
    let node = cursor.walk.node;
    let site = cursor.ahead(root, direction)[0]->At_0;
    let stepped = cursor.moved_to(root, site);
    lemma_walk_is_determined(circuit, cursor.walk);
    lemma_stop_splits_the_wire(circuit, path, below, node, wire);
    let whole = along(circuit.ops, path, wire);
    lemma_run_stands(circuit, path, circuit.ops.len() as int, wire);
    assert(circuit.ops.take(circuit.ops.len() as int) =~= circuit.ops);
    assert(all_stand_on(circuit, path, wire, whole));
    let left = cursor.ahead(root, Direction::Left);
    let right = cursor.ahead(root, Direction::Right);
    let here = Ahead::At(cursor.site());
    assert(left.reverse() + seq![here] + right == whole);
    let at = left.len() as int;
    assert(whole[at] == here);
    // The stop stepped to is the one beside it on the wire.
    let to = match direction {
        Direction::Right => at + 1,
        Direction::Left => at - 1,
    };
    assert(whole[to] == Ahead::At(site)) by {
        match direction {
            Direction::Right => {},
            Direction::Left => {
                assert(left.reverse()[left.len() - 1] == left[0]);
            },
        }
    }
    let there = site.scope.skip(path.len() as int);
    assert(stands_on(circuit, there, site.node, wire));
    assert(path + there =~= site.scope);
    lemma_walk_to_wire(circuit, there, site.node, wire);
    lemma_stop_splits_the_wire(circuit, path, there, site.node, wire);
    let behind = stepped.ahead(root, Direction::Left);
    let beyond = stepped.ahead(root, Direction::Right);
    assert(behind.reverse() + seq![Ahead::At(site)] + beyond == whole);
    // It stands on the wire once, so what is on either side of it is as much as beside its place.
    assert(whole[behind.len() as int] == Ahead::At(site));
    lemma_run_wf(circuit, 0, circuit.ops.len() as int);
    assert(circuit.ops.subrange(0, circuit.ops.len() as int) =~= circuit.ops);
    lemma_along_distinct(circuit.ops, path, wire);
    assert(behind.len() == to);
    match direction {
        Direction::Right => {
            assert(behind.reverse()[at] == behind[0]);
            assert(whole[at] == behind.reverse()[at]);
        },
        Direction::Left => {
            assert(whole[to + 1] == beyond[0]);
        },
    }
    assert(cursor.site().scope.skip(path.len() as int) =~= below);
}

/// A site a walk can stop at is there: the path to it can be followed, and its instruction found.
pub proof fn lemma_stands_on_exists(
    circuit: CircuitModel,
    below: Seq<usize>,
    node: usize,
    qubit: usize,
)
    requires
        circuit.wf(),
        stands_on(circuit, below, node, qubit),
    ensures
        site_exists(circuit, SiteModel { scope: below, node }),
        scope_of(circuit, below) is Ok,
        rewritable(circuit, below),
        !site_instruction(circuit, SiteModel { scope: below, node })->Ok_0.op.is_content_box(),
    decreases below.len(),
{
    if below.len() > 0 {
        let inst = circuit.get(below[0]);
        assert(inst.wf(circuit.num_qubits, circuit.num_clbits));
        lemma_stands_on_exists(inst.blocks[0], below.drop_first(), node, inst.local(qubit));
    }
}

/// The wires of a site a walk can stop at lift into the walk's own frame, and the walk's wire is among
/// them.
pub proof fn lemma_stands_on_lifts(
    circuit: CircuitModel,
    below: Seq<usize>,
    node: usize,
    qubit: usize,
)
    requires
        circuit.wf(),
        stands_on(circuit, below, node, qubit),
    ensures
        ({
            let inst = scope_of(circuit, below)->Ok_0.get(node);
            &&& lifted(circuit, below, inst.qubits) matches Ok(wires)
            &&& wires.len() == inst.qubits.len()
            &&& wires.contains(qubit)
            &&& wires_below(wires, circuit.num_qubits)
        }),
    decreases below.len(),
{
    if below.len() == 0 {
        assert(circuit.get(node).wf(circuit.num_qubits, circuit.num_clbits));
    } else {
        let outer = circuit.get(below[0]);
        assert(outer.wf(circuit.num_qubits, circuit.num_clbits));
        let body = outer.blocks[0];
        let rest = below.drop_first();
        let local = outer.local(qubit);
        lemma_stands_on_lifts(body, rest, node, local);
        let inst = scope_of(body, rest)->Ok_0.get(node);
        let inner = lifted(body, rest, inst.qubits)->Ok_0;
        let frame = outer.qubits;
        let wires = through(frame, inner);
        assert(frame[frame.index_of(qubit)] == qubit);
        let k = inner.index_of(local);
        assert(inner[k] == local);
        assert(wires[k] == qubit);
        assert(wires.no_duplicates()) by {
            assert forall|i: int, j: int| 0 <= i < wires.len() && 0 <= j < wires.len() && i != j
                implies wires[i] != wires[j] by {
                assert(inner[i] != inner[j]);
                assert(frame[inner[i] as int] != frame[inner[j] as int]);
            }
        }
    }
}

// --- What a walk sees ---------------------------------------------------------------------------

/// What stands at one position, as a rule sees it.
///
/// The whole of what the absorption and escape rules ever ask about an instruction, and deliberately no
/// more: with the question narrowed to this, a rule is a function of plain data rather than of a circuit,
/// so stating the case one decides costs a literal rather than a nested circuit.
#[derive(Clone, Copy, PartialEq, Eq, Structural, Debug)]
pub enum Sighting {
    /// A gate that can belong to an easy run: a single-qubit standard gate, which is the only kind a
    /// dressing multiplies in.
    EasyGate,
    /// An emission, and the direction it is still travelling. `None` once it has resolved in place, owned
    /// by the collector body it sits in rather than propagating towards one.
    Emission(Option<Direction>),
    /// A collect box.
    CollectBox,
    /// Hard content: anything else. No collector absorbs it, and nothing is moved across it.
    HardContent,
}

/// What an instruction is to a rule.
pub open spec fn sighting(inst: InstructionModel) -> Sighting {
    match inst.op {
        OperationModel::Emit(emit) => Sighting::Emission(emit.direction),
        OperationModel::Gate(gate) if gate.width() == 1 => Sighting::EasyGate,
        _ => if inst.op.is_collector() {
            Sighting::CollectBox
        } else {
            Sighting::HardContent
        },
    }
}

impl Sighting {
    /// What this instruction is.
    ///
    /// Takes no circuit, which is what keeps the rules downstream free of one: an instruction's wires and
    /// its operation always agree on how many there are, so an easy gate's width comes off the operation.
    pub fn of(inst: &Instruction) -> (seen: Self)
        ensures
            seen == sighting(inst@),
    {
        match &inst.op {
            Operation::Emit(emit) => Sighting::Emission(emit.direction),
            Operation::Gate(gate) => {
                if gate.num_qubits() == 1 {
                    Sighting::EasyGate
                } else {
                    Sighting::HardContent
                }
            },
            _ => {
                if is_collector(inst) {
                    Sighting::CollectBox
                } else {
                    Sighting::HardContent
                }
            },
        }
    }
}

/// What a wire sees of a run of instructions, in circuit order, a box being one sighting.
pub open spec fn run_sights(ops: Seq<InstructionModel>, wire: usize) -> Seq<Sighting>
    decreases ops.len(),
{
    if ops.len() == 0 {
        Seq::empty()
    } else if ops.last().touches(wire) {
        run_sights(ops.drop_last(), wire).push(sighting(ops.last()))
    } else {
        run_sights(ops.drop_last(), wire)
    }
}

/// What a wire sees past a position, nearest first.
pub open spec fn sights_past(
    circuit: CircuitModel,
    at: int,
    wire: usize,
    direction: Direction,
) -> Seq<Sighting> {
    if !circuit.ops[at].touches(wire) {
        Seq::empty()
    } else {
        match direction {
            Direction::Right => run_sights(circuit.ops.skip(at + 1), wire),
            Direction::Left => run_sights(circuit.ops.take(at), wire).reverse(),
        }
    }
}

proof fn lemma_run_sights_concat(
    left: Seq<InstructionModel>,
    right: Seq<InstructionModel>,
    wire: usize,
)
    ensures
        run_sights(left + right, wire) == run_sights(left, wire) + run_sights(right, wire),
    decreases right.len(),
{
    if right.len() == 0 {
        assert(left + right =~= left);
        assert(run_sights(left, wire) + run_sights(right, wire) =~= run_sights(left, wire));
    } else {
        assert((left + right).drop_last() =~= left + right.drop_last());
        assert((left + right).last() == right.last());
        lemma_run_sights_concat(left, right.drop_last(), wire);
        assert(run_sights(left + right, wire) =~= run_sights(left, wire) + run_sights(right, wire));
    }
}

/// What one wire sees ahead of a position, in the order it sees it.
///
/// This scope only: a box is one sighting rather than something stepped into, so a rule reading these
/// judges the run of content it is standing in and never something nested inside it. [`WireCursor`] is
/// the walk that crosses box boundaries; this is the reading that stays where it is.
///
/// Read one at a time, because every rule over it stops at the first sighting that settles the question,
/// and the rest of the wire is then nobody's business.
pub struct WireSights<'a> {
    dag: &'a Circuit,
    at: usize,
    wire: usize,
    direction: Direction,
}

impl<'a> WireSights<'a> {
    /// What is still ahead.
    pub closed spec fn ahead_of(self) -> Seq<Sighting> {
        sights_past(self.dag@, self.at as int, self.wire, self.direction)
    }

    /// Whether the reading stands somewhere in its circuit.
    pub closed spec fn wf(self) -> bool {
        self.dag@.wf() && self.at < self.dag@.ops.len()
    }

    /// What `wire` sees ahead of the node `from`, travelling `direction`.
    pub fn ahead(dag: &'a Circuit, from: usize, wire: usize, direction: Direction) -> (sights: Self)
        requires
            dag@.wf(),
            dag@.has(from),
        ensures
            sights.wf(),
            sights.ahead_of() == sights_past(dag@, dag@.at(from), wire, direction),
    {
        let at = dag.position(from);
        WireSights { dag, at, wire, direction }
    }

    /// The next sighting, or `None` at the end of the wire and ever after.
    pub fn next(&mut self) -> (seen: Option<Sighting>)
        requires
            old(self).wf(),
        ensures
            final(self).wf(),
            if old(self).ahead_of().len() == 0 {
                seen is None && final(self).ahead_of() == old(self).ahead_of()
            } else {
                seen == Some(old(self).ahead_of()[0]) && final(self).ahead_of() == old(self).ahead_of().drop_first()
            },
    {
        let dag = self.dag;
        let ghost model = dag@;
        let ghost wire = self.wire;
        let ghost ahead = self.ahead_of();
        let count: usize = dag.ops.len();
        assert(self.at < count);
        if !touches(&dag.ops[self.at], self.wire) {
            return None;
        }
        match self.direction {
            Direction::Right => {
                let mut i: usize = self.at + 1;
                while i < count
                    invariant
                        self.at < i <= count == dag.ops.len(),
                        *self == *old(self),
                        dag == self.dag,
                        model == dag@,
                        model.wf(),
                        wire == self.wire,
                        self.direction == Direction::Right,
                        ahead == self.ahead_of(),
                        ahead == run_sights(model.ops.skip(i as int), wire),
                    decreases count - i,
                {
                    let ghost inst = model.ops[i as int];
                    proof {
                        assert(inst == dag.ops@[i as int]@);
                        assert(model.ops.skip(i as int) =~= seq![inst] + model.ops.skip(i + 1));
                        lemma_run_sights_concat(seq![inst], model.ops.skip(i + 1), wire);
                        assert(seq![inst].drop_last() =~= Seq::<InstructionModel>::empty());
                        assert(run_sights(seq![inst].drop_last(), wire) =~= Seq::empty());
                        assert(seq![inst].last() == inst);
                        if inst.touches(wire) {
                            assert(run_sights(seq![inst], wire) =~= seq![sighting(inst)]);
                        }
                    }
                    if touches(&dag.ops[i], self.wire) {
                        self.at = i;
                        assert(ahead.drop_first() =~= run_sights(model.ops.skip(i + 1), wire));
                        return Some(Sighting::of(&dag.ops[i]));
                    }
                    assert(run_sights(model.ops.skip(i as int), wire) =~= run_sights(
                        model.ops.skip(i + 1),
                        wire,
                    ));
                    i += 1;
                }
                assert(model.ops.skip(i as int) =~= Seq::<InstructionModel>::empty());
                None
            },
            Direction::Left => {
                let mut i: usize = self.at;
                while i > 0
                    invariant
                        i <= self.at < dag.ops.len(),
                        *self == *old(self),
                        dag == self.dag,
                        model == dag@,
                        model.wf(),
                        wire == self.wire,
                        self.direction == Direction::Left,
                        ahead == self.ahead_of(),
                        ahead == run_sights(model.ops.take(i as int), wire).reverse(),
                    decreases i,
                {
                    let ghost inst = model.ops[i - 1];
                    let ghost before = run_sights(model.ops.take(i - 1), wire);
                    proof {
                        assert(inst == dag.ops@[i - 1]@);
                        assert(model.ops.take(i as int).drop_last() =~= model.ops.take(i - 1));
                        assert(model.ops.take(i as int).last() == inst);
                    }
                    if touches(&dag.ops[i - 1], self.wire) {
                        self.at = i - 1;
                        assert(ahead =~= before.push(sighting(inst)).reverse());
                        assert(ahead[0] == sighting(inst));
                        assert(ahead.drop_first() =~= before.reverse());
                        return Some(Sighting::of(&dag.ops[i - 1]));
                    }
                    i -= 1;
                }
                assert(model.ops.take(0) =~= Seq::<InstructionModel>::empty());
                assert(ahead =~= Seq::<Sighting>::empty());
                None
            },
        }
    }
}

/// How many emissions a body holds, by the direction each is still travelling.
///
/// Two rules count emissions and neither can use the other's count, so the difference between them is the
/// two readings here rather than an argument: absorption asks whether the body it is folding out of has a
/// twirl point of its own, and an escape asks how many emissions would arrive at the collector it is
/// folding into, wherever in the box they were written. Once counted, both are these same three numbers,
/// and the rules over them need no circuit.
#[derive(Clone, Copy, PartialEq, Eq, Structural, Debug)]
pub struct EmissionTally {
    left: usize,
    right: usize,
    /// Resolved in place, so travelling nowhere and arriving at no collector.
    resolved: usize,
}

/// What a tally counts.
pub struct TallyModel {
    pub left: nat,
    pub right: nat,
    pub resolved: nat,
}

impl View for EmissionTally {
    type V = TallyModel;

    closed spec fn view(&self) -> TallyModel {
        TallyModel {
            left: self.left as nat,
            right: self.right as nat,
            resolved: self.resolved as nat,
        }
    }
}

impl TallyModel {
    /// A tally of nothing.
    pub open spec fn zero() -> TallyModel {
        TallyModel { left: 0, right: 0, resolved: 0 }
    }

    /// The tally with one more emission.
    pub open spec fn counting(self, direction: Option<Direction>) -> TallyModel {
        match direction {
            Some(Direction::Left) => TallyModel { left: self.left + 1, ..self },
            Some(Direction::Right) => TallyModel { right: self.right + 1, ..self },
            None => TallyModel { resolved: self.resolved + 1, ..self },
        }
    }

    /// Two tallies together.
    pub open spec fn plus(self, other: TallyModel) -> TallyModel {
        TallyModel {
            left: self.left + other.left,
            right: self.right + other.right,
            resolved: self.resolved + other.resolved,
        }
    }

    /// How many emissions the tally counts.
    pub open spec fn total(self) -> nat {
        self.left + self.right + self.resolved
    }

    /// How many are still travelling in a direction.
    pub open spec fn bound(self, direction: Direction) -> nat {
        match direction {
            Direction::Left => self.left,
            Direction::Right => self.right,
        }
    }
}

/// The tally of a list of sightings.
pub open spec fn tally_of(sightings: Seq<Sighting>) -> TallyModel
    decreases sightings.len(),
{
    if sightings.len() == 0 {
        TallyModel::zero()
    } else {
        match sightings.last() {
            Sighting::Emission(direction) => tally_of(sightings.drop_last()).counting(direction),
            _ => tally_of(sightings.drop_last()),
        }
    }
}

/// What the instructions of a run are to a rule, one by one.
pub open spec fn sightings(ops: Seq<InstructionModel>) -> Seq<Sighting> {
    ops.map_values(|inst: InstructionModel| sighting(inst))
}

/// The tally of every emission in a run and in every body nested inside it, at any depth.
pub open spec fn subtree_tally(ops: Seq<InstructionModel>) -> Result<TallyModel, SamplexError>
    decreases ops,
{
    if ops.len() == 0 {
        Ok(TallyModel::zero())
    } else {
        match subtree_tally(ops.drop_last()) {
            Err(error) => Err(error),
            Ok(tally) => match sighting(ops.last()) {
                Sighting::Emission(direction) => Ok(tally.counting(direction)),
                _ => if ops.last().blocks.len() == 0 {
                    Ok(tally)
                } else if ops.last().blocks.len() == 1 {
                    match subtree_tally(ops.last().blocks[0].ops) {
                        Err(error) => Err(error),
                        Ok(nested) => Ok(tally.plus(nested)),
                    }
                } else {
                    Err(SamplexError::BoxWithoutOneBody)
                },
            },
        }
    }
}

proof fn lemma_tally_bound(sightings: Seq<Sighting>)
    ensures
        tally_of(sightings).total() <= sightings.len(),
    decreases sightings.len(),
{
    if sightings.len() > 0 {
        lemma_tally_bound(sightings.drop_last());
    }
}

proof fn lemma_subtree_bound(ops: Seq<InstructionModel>)
    ensures
        subtree_tally(ops) matches Ok(tally) ==> tally.total() <= run_size(ops),
    decreases ops,
{
    if ops.len() > 0 {
        lemma_subtree_bound(ops.drop_last());
        if ops.last().blocks.len() == 1 {
            lemma_subtree_bound(ops.last().blocks[0].ops);
            lemma_blocks_size_one(ops.last().blocks);
        }
    }
}

proof fn lemma_subtree_prefix(ops: Seq<InstructionModel>, k: int)
    requires
        0 <= k <= ops.len(),
        subtree_tally(ops.take(k)) is Err,
    ensures
        subtree_tally(ops) == subtree_tally(ops.take(k)),
    decreases ops.len() - k,
{
    if k == ops.len() {
        assert(ops.take(k) =~= ops);
    } else {
        assert(ops.take(k + 1).drop_last() =~= ops.take(k));
        lemma_subtree_prefix(ops, k + 1);
    }
}

impl EmissionTally {
    /// A tally of nothing.
    pub fn new() -> (tally: Self)
        ensures
            tally@ == TallyModel::zero(),
    {
        EmissionTally { left: 0, right: 0, resolved: 0 }
    }

    /// The tally of a list of sightings.
    pub fn from_sightings(seen: &[Sighting]) -> (tally: Self)
        ensures
            tally@ == tally_of(seen@),
    {
        let mut tally = Self::new();
        let mut i: usize = 0;
        while i < seen.len()
            invariant
                i <= seen.len(),
                tally@ == tally_of(seen@.take(i as int)),
            decreases seen.len() - i,
        {
            proof {
                assert(seen@.take(i + 1).drop_last() =~= seen@.take(i as int));
                lemma_tally_bound(seen@.take(i as int));
            }
            if let Sighting::Emission(direction) = seen[i] {
                tally.count(direction);
            }
            i += 1;
        }
        assert(seen@.take(i as int) =~= seen@);
        tally
    }

    /// The emissions written directly in this body.
    ///
    /// This scope only, deliberately. A nested box's emissions are fenced by that box's own collectors,
    /// so they resolve inside it and never reach a gate in the enclosing body. Counting them anyway would
    /// make a `ChangeBasis` box wrapping a twirled one look occupied by the inner box's twirl point.
    pub fn here(dag: &Circuit) -> (tally: Self)
        ensures
            tally@ == tally_of(sightings(dag@.ops)),
    {
        let mut tally = Self::new();
        let ghost seen = sightings(dag@.ops);
        let mut i: usize = 0;
        while i < dag.ops.len()
            invariant
                i <= dag.ops.len(),
                seen == sightings(dag@.ops),
                tally@ == tally_of(seen.take(i as int)),
            decreases dag.ops.len() - i,
        {
            proof {
                assert(seen.take(i + 1).drop_last() =~= seen.take(i as int));
                assert(seen.take(i + 1).last() == sighting(dag.ops@[i as int]@));
                lemma_tally_bound(seen.take(i as int));
            }
            if let Sighting::Emission(direction) = Sighting::of(&dag.ops[i]) {
                tally.count(direction);
            }
            i += 1;
        }
        assert(seen.take(i as int) =~= seen);
        tally
    }

    /// Every emission in this body and in every body nested inside it, at any depth.
    ///
    /// A collect box is descended into as well, unlike everywhere else in this module: what one holds has
    /// resolved in place, so it adds to no direction and needs no exception made for it.
    pub fn subtree(dag: &Circuit) -> (result: Result<Self, SamplexError>)
        requires
            run_size(dag@.ops) <= usize::MAX,
        ensures
            match subtree_tally(dag@.ops) {
                Ok(said) => result matches Ok(tally) && tally@ == said,
                Err(error) => result matches Err(reported) && reported == error,
            },
        decreases dag@,
    {
        let ghost ops = dag@.ops;
        let mut tally = Self::new();
        let mut i: usize = 0;
        while i < dag.ops.len()
            invariant
                i <= dag.ops.len(),
                ops == dag@.ops,
                run_size(ops) <= usize::MAX,
                subtree_tally(ops.take(i as int)) == Ok::<TallyModel, SamplexError>(tally@),
            decreases dag.ops.len() - i,
        {
            let ghost next = ops.take(i + 1);
            proof {
                assert(next.drop_last() =~= ops.take(i as int));
                assert(next.last() == dag.ops@[i as int]@);
                lemma_subtree_bound(ops.take(i as int));
                lemma_run_size_take(ops, i + 1);
            }
            let inst = &dag.ops[i];
            if let Sighting::Emission(direction) = Sighting::of(inst) {
                tally.count(direction);
            } else {
                match block_body(inst) {
                    Err(error) => {
                        proof {
                            lemma_subtree_prefix(ops, i + 1);
                        }
                        return Err(error);
                    },
                    Ok(None) => {},
                    Ok(Some(body)) => {
                        proof {
                            lemma_blocks_size_one(inst@.blocks);
                            lemma_subtree_bound(body@.ops);
                            assert(decreases_to!(dag@ => dag@.ops));
                            assert(decreases_to!(dag@.ops => dag@.ops[i as int]));
                            assert(decreases_to!(dag@.ops[i as int] => dag@.ops[i as int].blocks));
                            assert(decreases_to!(
                                dag@.ops[i as int].blocks => dag@.ops[i as int].blocks[0]
                            ));
                        }
                        match Self::subtree(body) {
                            Err(error) => {
                                proof {
                                    lemma_subtree_prefix(ops, i + 1);
                                }
                                return Err(error);
                            },
                            Ok(nested) => {
                                tally.add(nested);
                            },
                        }
                    },
                }
            }
            i += 1;
        }
        assert(ops.take(i as int) =~= ops);
        Ok(tally)
    }

    /// How many are still travelling in `direction`, and so still looking for a collector that way.
    pub fn towards(&self, direction: Direction) -> (count: usize)
        ensures
            count == self@.bound(direction),
    {
        match direction {
            Direction::Left => self.left,
            Direction::Right => self.right,
        }
    }

    /// Whether the body holds any emission at all, travelling or resolved: that is, whether it has a
    /// twirl point in it.
    pub fn any(&self) -> (any: bool)
        ensures
            any == (self@.total() > 0),
    {
        self.left > 0 || self.right > 0 || self.resolved > 0
    }

    fn count(&mut self, direction: Option<Direction>)
        requires
            match direction {
                Some(direction) => old(self)@.bound(direction) < usize::MAX,
                None => old(self)@.resolved < usize::MAX,
            },
        ensures
            final(self)@ == old(self)@.counting(direction),
    {
        match direction {
            Some(Direction::Left) => {
                self.left += 1;
            },
            Some(Direction::Right) => {
                self.right += 1;
            },
            None => {
                self.resolved += 1;
            },
        }
    }

    /// Add a nested body's tally to this one. An emission arrives where it arrives regardless of how many
    /// boxes it was written inside.
    pub fn add(&mut self, nested: Self)
        requires
            old(self)@.left + nested@.left <= usize::MAX,
            old(self)@.right + nested@.right <= usize::MAX,
            old(self)@.resolved + nested@.resolved <= usize::MAX,
        ensures
            final(self)@ == old(self)@.plus(nested@),
    {
        self.left += nested.left;
        self.right += nested.right;
        self.resolved += nested.resolved;
    }
}

impl Default for EmissionTally {
    fn default() -> (tally: Self)
        ensures
            tally@ == TallyModel::zero(),
    {
        Self::new()
    }
}

/// Counting two lists of sightings one after the other is counting each and adding: there is an emission in both
/// together where there is one in either, and nothing counted adds nothing.
pub proof fn lemma_tally_adds(first: Seq<Sighting>, second: Seq<Sighting>)
    ensures
        tally_of(first + second) == tally_of(first).plus(tally_of(second)),
        tally_of(first + second).total() > 0 <==> tally_of(first).total() > 0 || tally_of(
            second,
        ).total() > 0,
        tally_of(first).plus(TallyModel::zero()) == tally_of(first),
    decreases second.len(),
{
    if second.len() == 0 {
        assert(first + second =~= first);
    } else {
        assert((first + second).drop_last() =~= first + second.drop_last());
        assert((first + second).last() == second.last());
        lemma_tally_adds(first, second.drop_last());
    }
}

// --- Writing ------------------------------------------------------------------------------------

/// Create an empty body with the given dimensions, with room for this many instructions.
pub fn new_dag_body(num_qubits: usize, num_clbits: usize, capacity: usize) -> (body: Circuit)
    ensures
        body@ == CircuitModel::bare(num_qubits as nat, num_clbits as nat),
        body@.wf(),
        body@.fresh(),
{
    let body = Circuit { num_qubits, num_clbits, ops: Vec::with_capacity(capacity) };
    assert(body@.ops =~= Seq::<InstructionModel>::empty());
    body
}

/// Whether an instruction can be put on these wires of a circuit.
pub open spec fn placeable(
    circuit: CircuitModel,
    op: OperationModel,
    qargs: Seq<usize>,
    cargs: Seq<usize>,
) -> bool {
    &&& wires_below(qargs, circuit.num_qubits)
    &&& wires_below(cargs, circuit.num_clbits)
    &&& op.fits(qargs.len())
}

/// The instruction a circuit under construction takes next.
pub open spec fn next_instruction(
    circuit: CircuitModel,
    op: OperationModel,
    params: Seq<ParamModel>,
    blocks: Seq<CircuitModel>,
    qargs: Seq<usize>,
    cargs: Seq<usize>,
) -> InstructionModel {
    InstructionModel {
        node: circuit.ops.len() as usize,
        op,
        qubits: qargs,
        clbits: cargs,
        params,
        blocks,
    }
}

proof fn lemma_with_keeps_wf(circuit: CircuitModel, inst: InstructionModel)
    requires
        circuit.wf(),
        circuit.fresh(),
        inst.node == circuit.ops.len(),
        inst.wf(circuit.num_qubits, circuit.num_clbits),
    ensures
        circuit.with(inst).wf(),
        circuit.with(inst).fresh(),
{
}

fn copy_wires(wires: &[usize]) -> (copy: Vec<usize>)
    ensures
        copy@ == wires@,
{
    let mut copy: Vec<usize> = Vec::new();
    let mut i: usize = 0;
    while i < wires.len()
        invariant
            i <= wires.len(),
            copy@ == wires@.take(i as int),
        decreases wires.len() - i,
    {
        copy.push(wires[i]);
        assert(copy@ =~= wires@.take(i + 1));
        i += 1;
    }
    assert(wires@.take(i as int) =~= wires@);
    copy
}

/// Append an operation to the back of a circuit under construction.
pub fn append(
    out: &mut Circuit,
    op: Operation,
    params: Vec<Param>,
    qargs: &[usize],
    cargs: &[usize],
)
    ensures
        final(out)@ == old(out)@.with(
            next_instruction(
                old(out)@,
                op@,
                params_model(params@),
                Seq::empty(),
                qargs@,
                cargs@,
            ),
        ),
        old(out)@.wf() && old(out)@.fresh() && placeable(old(out)@, op@, qargs@, cargs@)
            ==> final(out)@.wf() && final(out)@.fresh(),
{
    let ghost before = out@;
    let inst = Instruction {
        node: out.ops.len(),
        op,
        qubits: copy_wires(qargs),
        clbits: copy_wires(cargs),
        params,
        blocks: Vec::new(),
    };
    let ghost said = inst@;
    assert(said.blocks =~= Seq::<CircuitModel>::empty());
    out.ops.push(inst);
    proof {
        assert(out@.ops =~= before.ops.push(said));
        if before.wf() && before.fresh() && placeable(before, said.op, qargs@, cargs@) {
            lemma_with_keeps_wf(before, said);
        }
    }
}

/// Append a copy of an instruction, on the wires given rather than on its own.
///
/// Moving an instruction somewhere else is always this pair of steps, cloning the operation and carrying
/// its parameters across, and every caller wants both, so neither is offered separately.
pub fn append_instruction(out: &mut Circuit, inst: &Instruction, qargs: &[usize], cargs: &[usize])
    ensures
        final(out)@ == old(out)@.with(
            next_instruction(
                old(out)@,
                inst@.op,
                inst@.params,
                Seq::empty(),
                qargs@,
                cargs@,
            ),
        ),
        old(out)@.wf() && old(out)@.fresh() && placeable(old(out)@, inst@.op, qargs@, cargs@)
            ==> final(out)@.wf() && final(out)@.fresh(),
{
    append(out, inst.op.clone(), clone_params(&inst.params), qargs, cargs);
}

/// Append a `box` with this body and these annotations.
pub fn write_box(
    out: &mut Circuit,
    body: Circuit,
    annotations: Vec<Annotation>,
    duration: Option<BoxDuration>,
    qargs: &[usize],
    cargs: &[usize],
)
    ensures
        final(out)@ == old(out)@.with(
            next_instruction(
                old(out)@,
                OperationModel::Box { annotations: annotations_model(annotations@), duration },
                Seq::empty(),
                seq![body@],
                qargs@,
                cargs@,
            ),
        ),
        old(out)@.wf() && old(out)@.fresh() && wires_below(qargs@, old(out)@.num_qubits)
            && wires_below(cargs@, old(out)@.num_clbits) && body@.wf() && body@.num_qubits
            == qargs@.len() && body@.num_clbits == cargs@.len() ==> final(out)@.wf() && final(out)@.fresh(),
{
    let ghost before = out@;
    let ghost inner = body@;
    let mut blocks: Vec<Circuit> = Vec::new();
    blocks.push(body);
    let inst = Instruction {
        node: out.ops.len(),
        op: Operation::Box { annotations, duration },
        qubits: copy_wires(qargs),
        clbits: copy_wires(cargs),
        params: Vec::new(),
        blocks,
    };
    let ghost said = inst@;
    assert(said.blocks =~= seq![inner]);
    assert(said.params =~= Seq::<ParamModel>::empty());
    out.ops.push(inst);
    proof {
        assert(out@.ops =~= before.ops.push(said));
        if before.wf() && before.fresh() && wires_below(qargs@, before.num_qubits) && wires_below(
            cargs@,
            before.num_clbits,
        ) && inner.wf() && inner.num_qubits == qargs@.len() && inner.num_clbits == cargs@.len() {
            lemma_with_keeps_wf(before, said);
        }
    }
}

/// The operation of a collect box: a box with this one annotation and no duration.
pub open spec fn collect_box(collect: CollectModel) -> OperationModel {
    OperationModel::Box {
        annotations: seq![AnnotationModel::Collect(collect)],
        duration: None,
    }
}

/// A collect box carrying this annotation.
///
/// Any other annotation and any duration on the box being replaced are dropped, which is sound only
/// because the build pass is the sole minter of collect boxes and gives them exactly one annotation and
/// no duration.
pub fn collect_op(annotation: Collect) -> (op: Operation)
    ensures
        op@ == collect_box(annotation@),
        op@.collect() == Some(annotation@),
{
    let ghost said = annotation@;
    let mut annotations: Vec<Annotation> = Vec::new();
    annotations.push(Annotation::Collect(annotation));
    assert(annotations_model(annotations@) =~= seq![AnnotationModel::Collect(said)]);
    Operation::Box { annotations, duration: None }
}

// --- What rewriting leaves alone ----------------------------------------------------------------

/// Whether a site below a scope is reached through content boxes and is no box to be opened itself.
pub open spec fn stands_at(circuit: CircuitModel, below: Seq<usize>, node: usize) -> bool
    decreases below.len(),
{
    if below.len() == 0 {
        circuit.has(node) && !circuit.get(node).op.is_content_box()
    } else {
        let inst = circuit.get(below[0]);
        &&& circuit.has(below[0])
        &&& inst.op.is_content_box()
        &&& inst.blocks.len() == 1
        &&& stands_at(inst.blocks[0], below.drop_first(), node)
    }
}

/// What a walk along a wire can stop at is reached through content boxes.
pub proof fn lemma_stands_on_at(circuit: CircuitModel, below: Seq<usize>, node: usize, qubit: usize)
    requires
        stands_on(circuit, below, node, qubit),
    ensures
        stands_at(circuit, below, node),
    decreases below.len(),
{
    if below.len() > 0 {
        let inst = circuit.get(below[0]);
        lemma_stands_on_at(inst.blocks[0], below.drop_first(), node, inst.local(qubit));
    }
}

/// A site reached through content boxes is there, and can be rewritten.
pub proof fn lemma_stands_at_exists(circuit: CircuitModel, below: Seq<usize>, node: usize)
    requires
        circuit.wf(),
        stands_at(circuit, below, node),
    ensures
        site_exists(circuit, SiteModel { scope: below, node }),
        scope_of(circuit, below) matches Ok(scope) && scope.wf() && scope.has(node),
        rewritable(circuit, below),
    decreases below.len(),
{
    if below.len() > 0 {
        let inst = circuit.get(below[0]);
        assert(inst.wf(circuit.num_qubits, circuit.num_clbits));
        lemma_stands_at_exists(inst.blocks[0], below.drop_first(), node);
    }
}

/// A site reached from a scope that is itself reached through content boxes is reached from the root.
pub proof fn lemma_stands_at_below(
    root: CircuitModel,
    base: Seq<usize>,
    anchor: usize,
    below: Seq<usize>,
    node: usize,
)
    requires
        root.wf(),
        stands_at(root, base, anchor),
        stands_at(scope_of(root, base)->Ok_0, below, node),
    ensures
        stands_at(root, base + below, node),
        scope_of(root, base + below) == scope_of(scope_of(root, base)->Ok_0, below),
    decreases base.len(),
{
    lemma_stands_at_exists(root, base, anchor);
    lemma_scope_of_concat(root, base, below);
    if base.len() == 0 {
        assert(base + below =~= below);
    } else {
        let inst = root.get(base[0]);
        assert(inst.wf(root.num_qubits, root.num_clbits));
        lemma_stands_at_below(inst.blocks[0], base.drop_first(), anchor, below, node);
        assert((base + below).drop_first() =~= base.drop_first() + below);
    }
}

/// A circuit's instruction is where its node number says.
pub proof fn lemma_get(circuit: CircuitModel, node: usize, i: int)
    requires
        circuit.wf(),
        0 <= i < circuit.ops.len(),
        circuit.ops[i].node == node,
    ensures
        circuit.has(node),
        circuit.at(node) == i,
        circuit.get(node) == circuit.ops[i],
{
    lemma_at(circuit, i);
}

/// Whether a circuit is another up to one of its instructions.
pub open spec fn same_but(before: CircuitModel, node: usize, after: CircuitModel) -> bool {
    &&& after.wf()
    &&& after.num_qubits == before.num_qubits
    &&& after.num_clbits == before.num_clbits
    &&& forall|other: usize| #[trigger]
        before.has(other) && other != node ==> after.has(other) && after.get(other) == before.get(
            other,
        )
}

/// Replacing an instruction by a box as wide leaves a circuit well formed and the rest of it as it was.
pub proof fn lemma_with_op(circuit: CircuitModel, node: usize, op: OperationModel, body: CircuitModel)
    requires
        circuit.wf(),
        circuit.has(node),
        op.is_box(),
        body.wf(),
        body.num_qubits == circuit.get(node).qubits.len(),
        body.num_clbits == circuit.get(node).clbits.len(),
    ensures
        same_but(circuit, node, with_op(circuit, node, op, body)),
        with_op(circuit, node, op, body).has(node),
        with_op(circuit, node, op, body).get(node) == (InstructionModel {
            op,
            params: Seq::empty(),
            blocks: seq![body],
            ..circuit.get(node)
        }),
{
    let at = circuit.at(node);
    let after = with_op(circuit, node, op, body);
    assert(circuit.ops[at].node == node);
    assert(circuit.ops[at].wf(circuit.num_qubits, circuit.num_clbits));
    assert forall|i: int| 0 <= i < after.ops.len() implies (#[trigger] after.ops[i]).wf(
        after.num_qubits,
        after.num_clbits,
    ) && after.ops[i].node == circuit.ops[i].node by {
        assert(circuit.ops[i].wf(circuit.num_qubits, circuit.num_clbits));
        if i == at {
            assert(after.ops[i].blocks =~= seq![body]);
        }
    }
    assert forall|i: int, j: int| 0 <= i < j < after.ops.len() implies (#[trigger] after.ops[i]).node
        != (#[trigger] after.ops[j]).node by {
        assert(circuit.ops[i].node != circuit.ops[j].node);
    }
    assert(after.wf());
    lemma_get(after, node, at);
    assert forall|other: usize| #[trigger] circuit.has(other) && other != node implies after.has(other)
        && after.get(other) == circuit.get(other) by {
        let i = circuit.at(other);
        assert(circuit.ops[i].node == other);
        assert(after.ops[i] == circuit.ops[i]);
        lemma_get(after, other, i);
    }
}

/// Taking an instruction out leaves a circuit well formed and the rest of it as it was.
pub proof fn lemma_without(circuit: CircuitModel, node: usize)
    requires
        circuit.wf(),
        circuit.has(node),
    ensures
        same_but(circuit, node, without(circuit, node)),
{
    let at = circuit.at(node);
    let after = without(circuit, node);
    assert(circuit.ops[at].node == node);
    assert forall|i: int| 0 <= i < after.ops.len() implies #[trigger] after.ops[i] == circuit.ops[if i
        < at {
        i
    } else {
        i + 1
    }] by {}
    assert forall|i: int| 0 <= i < after.ops.len() implies (#[trigger] after.ops[i]).wf(
        after.num_qubits,
        after.num_clbits,
    ) by {
        let from = if i < at {
            i
        } else {
            i + 1
        };
        assert(circuit.ops[from].wf(circuit.num_qubits, circuit.num_clbits));
    }
    assert(after.wf());
    assert forall|other: usize| #[trigger] circuit.has(other) && other != node implies after.has(other)
        && after.get(other) == circuit.get(other) by {
        let i = circuit.at(other);
        assert(circuit.ops[i].node == other);
        let to = if i < at {
            i
        } else {
            i - 1
        };
        assert(after.ops[to] == circuit.ops[i]);
        lemma_get(after, other, to);
    }
}

/// Rewriting one instruction of a scope leaves the circuit well formed and every other site as it was.
pub proof fn lemma_rewrite_elsewhere(
    root: CircuitModel,
    scope: Seq<usize>,
    node: usize,
    inner: CircuitModel,
    other_scope: Seq<usize>,
    other: usize,
)
    requires
        root.wf(),
        stands_at(root, scope, node),
        same_but(scope_of(root, scope)->Ok_0, node, inner),
        stands_at(root, other_scope, other),
        scope != other_scope || node != other,
    ensures
        stands_at(with_scope(root, scope, inner), other_scope, other),
        site_instruction(
            with_scope(root, scope, inner),
            SiteModel { scope: other_scope, node: other },
        ) == site_instruction(root, SiteModel { scope: other_scope, node: other }),
    decreases scope.len(),
{
    lemma_rewrite(root, scope, node, inner);
    let after = with_scope(root, scope, inner);
    let site = SiteModel { scope: other_scope, node: other };
    if scope.len() == 0 {
        if other_scope.len() == 0 {
            assert(scope =~= other_scope);
            assert(root.has(other) && other != node);
        } else {
            assert(root.has(other_scope[0]) && other_scope[0] != node);
        }
    } else {
        let step = scope[0];
        let at = root.at(step);
        let inst = root.ops[at];
        assert(root.get(step) == inst);
        assert(inst.node == step);
        assert(inst.wf(root.num_qubits, root.num_clbits));
        let replaced = with_scope(inst.blocks[0], scope.drop_first(), inner);
        let changed = InstructionModel { blocks: seq![replaced], ..inst };
        assert(after.ops[at] == changed);
        lemma_get(after, step, at);
        if other_scope.len() == 0 {
            assert(other != step);
            let i = root.at(other);
            assert(root.ops[i].node == other);
            assert(after.ops[i] == root.ops[i]);
            lemma_get(after, other, i);
        } else if other_scope[0] != step {
            let i = root.at(other_scope[0]);
            assert(root.ops[i].node == other_scope[0]);
            assert(after.ops[i] == root.ops[i]);
            lemma_get(after, other_scope[0], i);
        } else {
            assert(scope.drop_first() != other_scope.drop_first() || node != other) by {
                if scope.drop_first() == other_scope.drop_first() {
                    assert(scope =~= seq![step] + scope.drop_first());
                    assert(other_scope =~= seq![step] + other_scope.drop_first());
                }
            }
            lemma_rewrite_elsewhere(
                inst.blocks[0],
                scope.drop_first(),
                node,
                inner,
                other_scope.drop_first(),
                other,
            );
            assert(after.get(step).blocks[0] == replaced);
        }
    }
}

/// Rewriting one instruction of a scope leaves the circuit well formed, and puts the new scope where the old
/// one was.
pub proof fn lemma_rewrite(
    root: CircuitModel,
    scope: Seq<usize>,
    node: usize,
    inner: CircuitModel,
)
    requires
        root.wf(),
        stands_at(root, scope, node),
        same_but(scope_of(root, scope)->Ok_0, node, inner),
    ensures
        with_scope(root, scope, inner).wf(),
        with_scope(root, scope, inner).num_qubits == root.num_qubits,
        with_scope(root, scope, inner).num_clbits == root.num_clbits,
        scope_of(with_scope(root, scope, inner), scope) == Ok::<CircuitModel, SamplexError>(inner),
    decreases scope.len(),
{
    if scope.len() > 0 {
        let step = scope[0];
        let at = root.at(step);
        let inst = root.ops[at];
        assert(root.get(step) == inst);
        assert(inst.node == step);
        assert(inst.wf(root.num_qubits, root.num_clbits));
        let rest = scope.drop_first();
        assert(inst.blocks[0].wf());
        lemma_rewrite(inst.blocks[0], rest, node, inner);
        let replaced = with_scope(inst.blocks[0], rest, inner);
        let after = with_scope(root, scope, inner);
        let changed = InstructionModel { blocks: seq![replaced], ..inst };
        assert forall|i: int| 0 <= i < after.ops.len() implies (#[trigger] after.ops[i]).wf(
            after.num_qubits,
            after.num_clbits,
        ) && after.ops[i].node == root.ops[i].node by {
            assert(root.ops[i].wf(root.num_qubits, root.num_clbits));
            if i == at {
                assert(after.ops[i] == changed);
            }
        }
        assert forall|i: int, j: int| 0 <= i < j < after.ops.len() implies (
        #[trigger] after.ops[i]).node != (#[trigger] after.ops[j]).node by {
            assert(root.ops[i].node != root.ops[j].node);
        }
        assert(after.wf());
        lemma_get(after, step, at);
        assert(after.get(step).blocks[0] == replaced);
    }
}

/// Whether a site lies at or below a scope, is reached through content boxes, and is a collector.
pub open spec fn collects_at(circuit: CircuitModel, path: Seq<usize>, site: SiteModel) -> bool {
    let below = site.scope.skip(path.len() as int);
    &&& path.len() <= site.scope.len()
    &&& site.scope.take(path.len() as int) == path
    &&& stands_at(circuit, below, site.node)
    &&& scope_of(circuit, below)->Ok_0.get(site.node).op.is_collector()
}

/// A sweep in either order reports collectors, each once.
pub proof fn lemma_sweep_reports_each_once(circuit: CircuitModel, path: Seq<usize>, order: ScopeOrder)
    requires
        circuit.wf(),
        swept(circuit, path, order) is Ok,
    ensures
        swept(circuit, path, order)->Ok_0.no_duplicates(),
        forall|k: int|
            0 <= k < swept(circuit, path, order)->Ok_0.len() ==> collects_at(
                circuit,
                path,
                #[trigger] swept(circuit, path, order)->Ok_0[k],
            ),
    decreases circuit, 1nat, 0nat,
{
    let sites = swept(circuit, path, order)->Ok_0;
    let count = circuit.ops.len();
    assert(circuit.ops.take(count as int) =~= circuit.ops);
    let inner = nested_collectors(circuit.ops, path, order)->Ok_0;
    let own = own_collectors(circuit.ops, path);
    lemma_nested_each_once(circuit, path, order, count as int);
    lemma_own_each_once(circuit, path, count as int);
    assert forall|k: int| 0 <= k < sites.len() implies collects_at(circuit, path, #[trigger] sites[k]) by {
        match order {
            ScopeOrder::Innermost => {
                if k < inner.len() {
                    assert(sites[k] == inner[k]);
                } else {
                    assert(sites[k] == own[k - inner.len()]);
                }
            },
            ScopeOrder::Outermost => {
                if k < own.len() {
                    assert(sites[k] == own[k]);
                } else {
                    assert(sites[k] == inner[k - own.len()]);
                }
            },
        }
    }
    assert forall|i: int, j: int| 0 <= i < inner.len() && 0 <= j < own.len() implies inner[i]
        != own[j] by {
        assert(inner[i].scope.len() > path.len());
        assert(own[j].scope == path);
    }
}

pub(crate) proof fn lemma_own_each_once(circuit: CircuitModel, path: Seq<usize>, count: int)
    requires
        circuit.wf(),
        0 <= count <= circuit.ops.len(),
    ensures
        own_collectors(circuit.ops.take(count), path).no_duplicates(),
        forall|k: int|
            0 <= k < own_collectors(circuit.ops.take(count), path).len() ==> {
                let site = #[trigger] own_collectors(circuit.ops.take(count), path)[k];
                &&& site.scope == path
                &&& collects_at(circuit, path, site)
                &&& in_run(circuit.ops.take(count), site.node)
            },
    decreases count,
{
    if count > 0 {
        let run = circuit.ops.take(count);
        let front = circuit.ops.take(count - 1);
        assert(run.drop_last() =~= front);
        lemma_own_each_once(circuit, path, count - 1);
        let before = own_collectors(front, path);
        let after = own_collectors(run, path);
        let last = circuit.ops[count - 1];
        assert(run.last() == last);
        lemma_at(circuit, count - 1);
        assert forall|k: int| 0 <= k < after.len() implies ({
            let site = #[trigger] after[k];
            &&& site.scope == path
            &&& collects_at(circuit, path, site)
            &&& in_run(run, site.node)
        }) by {
            if k < before.len() {
                assert(after[k] == before[k]);
                let i = choose|i: int|
                    0 <= i < front.len() && (#[trigger] front[i]).node == before[k].node;
                assert(run[i].node == before[k].node);
            } else {
                let site = after[k];
                assert(site == SiteModel { scope: path, node: last.node });
                assert(path.take(path.len() as int) =~= path);
                assert(path.skip(path.len() as int) =~= Seq::<usize>::empty());
                assert(run[count - 1].node == last.node);
            }
        }
        assert(after.no_duplicates()) by {
            if last.op.is_collector() {
                assert forall|k: int| 0 <= k < before.len() implies before[k].node != last.node by {
                    assert(in_run(front, before[k].node));
                    let i = choose|i: int|
                        0 <= i < front.len() && (#[trigger] front[i]).node == before[k].node;
                    assert(circuit.ops[i].node != circuit.ops[count - 1].node);
                }
            }
        }
    }
}

/// Whether some instruction of a run goes by a number.
pub open spec fn in_run(ops: Seq<InstructionModel>, node: usize) -> bool {
    exists|i: int| 0 <= i < ops.len() && (#[trigger] ops[i]).node == node
}

proof fn lemma_nested_each_once(
    circuit: CircuitModel,
    path: Seq<usize>,
    order: ScopeOrder,
    count: int,
)
    requires
        circuit.wf(),
        0 <= count <= circuit.ops.len(),
        nested_collectors(circuit.ops.take(count), path, order) is Ok,
    ensures
        nested_collectors(circuit.ops.take(count), path, order)->Ok_0.no_duplicates(),
        forall|k: int|
            0 <= k < nested_collectors(circuit.ops.take(count), path, order)->Ok_0.len() ==> {
                let site = #[trigger] nested_collectors(circuit.ops.take(count), path, order)->Ok_0[k];
                &&& site.scope.len() > path.len()
                &&& collects_at(circuit, path, site)
                &&& in_run(circuit.ops.take(count), site.scope[path.len() as int])
            },
    decreases circuit, 0nat, count,
{
    if count > 0 {
        let run = circuit.ops.take(count);
        let front = circuit.ops.take(count - 1);
        assert(run.drop_last() =~= front);
        lemma_nested_each_once(circuit, path, order, count - 1);
        let before = nested_collectors(front, path, order)->Ok_0;
        let after = nested_collectors(run, path, order)->Ok_0;
        let last = circuit.ops[count - 1];
        assert(run.last() == last);
        lemma_at(circuit, count - 1);
        assert(last.wf(circuit.num_qubits, circuit.num_clbits));
        if last.op.is_content_box() {
            let body = last.blocks[0];
            let deeper = path.push(last.node);
            assert(decreases_to!(circuit => circuit.ops));
            assert(decreases_to!(circuit.ops => circuit.ops[count - 1]));
            assert(decreases_to!(circuit.ops[count - 1] => circuit.ops[count - 1].blocks));
            assert(decreases_to!(circuit.ops[count - 1].blocks => circuit.ops[count - 1].blocks[0]));
            lemma_sweep_reports_each_once(body, deeper, order);
            let inner = swept(body, deeper, order)->Ok_0;
            assert(after =~= before + inner);
            assert forall|k: int| 0 <= k < after.len() implies ({
                let site = #[trigger] after[k];
                &&& site.scope.len() > path.len()
                &&& collects_at(circuit, path, site)
                &&& in_run(run, site.scope[path.len() as int])
            }) by {
                if k < before.len() {
                    assert(after[k] == before[k]);
                    let step = before[k].scope[path.len() as int];
                    let i = choose|i: int| 0 <= i < front.len() && (#[trigger] front[i]).node == step;
                    assert(run[i].node == step);
                } else {
                    let site = inner[k - before.len()];
                    assert(after[k] == site);
                    assert(collects_at(body, deeper, site));
                    assert(site.scope.take(deeper.len() as int) == deeper);
                    assert(site.scope[path.len() as int] == site.scope.take(
                        deeper.len() as int,
                    )[path.len() as int]);
                    assert(site.scope.take(path.len() as int) =~= deeper.take(path.len() as int));
                    assert(deeper.take(path.len() as int) =~= path);
                    let below = site.scope.skip(path.len() as int);
                    assert(below.drop_first() =~= site.scope.skip(deeper.len() as int));
                    assert(below[0] == last.node);
                    assert(run[count - 1].node == last.node);
                }
            }
            assert(after.no_duplicates()) by {
                assert forall|i: int, j: int| 0 <= i < before.len() && 0 <= j < inner.len() implies before[i]
                    != inner[j] by {
                    let step = before[i].scope[path.len() as int];
                    assert(in_run(front, step));
                    let m = choose|m: int| 0 <= m < front.len() && (#[trigger] front[m]).node == step;
                    assert(circuit.ops[m].node != circuit.ops[count - 1].node);
                    assert(collects_at(body, deeper, inner[j]));
                    assert(inner[j].scope.take(deeper.len() as int)[path.len() as int] == last.node);
                }
            }
        } else {
            assert forall|k: int| 0 <= k < after.len() implies ({
                let site = #[trigger] after[k];
                &&& site.scope.len() > path.len()
                &&& collects_at(circuit, path, site)
                &&& in_run(run, site.scope[path.len() as int])
            }) by {
                assert(after[k] == before[k]);
                let step = before[k].scope[path.len() as int];
                let i = choose|i: int| 0 <= i < front.len() && (#[trigger] front[i]).node == step;
                assert(run[i].node == step);
            }
        }
    }
}

/// A sweep in either order reports every collector that is reached through content boxes.
pub proof fn lemma_sweep_reports_every_collector(
    circuit: CircuitModel,
    path: Seq<usize>,
    order: ScopeOrder,
    site: SiteModel,
)
    requires
        circuit.wf(),
        swept(circuit, path, order) is Ok,
        collects_at(circuit, path, site),
    ensures
        swept(circuit, path, order)->Ok_0.contains(site),
    decreases site.scope.len() - path.len(),
{
    let below = site.scope.skip(path.len() as int);
    let own = own_collectors(circuit.ops, path);
    let inner = nested_collectors(circuit.ops, path, order)->Ok_0;
    let sites = swept(circuit, path, order)->Ok_0;
    if below.len() == 0 {
        let at = circuit.at(site.node);
        assert(circuit.ops[at].node == site.node);
        assert(circuit.ops[at] == circuit.get(site.node));
        assert(site.scope =~= path);
        assert(circuit.ops.take(circuit.ops.len() as int) =~= circuit.ops);
        lemma_own_holds(circuit.ops, path, circuit.ops.len() as int, at);
        let k = own.index_of(site);
        assert(own[k] == site);
        match order {
            ScopeOrder::Innermost => assert(sites[inner.len() + k] == site),
            ScopeOrder::Outermost => assert(sites[k] == site),
        }
    } else {
        let at = circuit.at(below[0]);
        let inst = circuit.ops[at];
        assert(inst.node == below[0]);
        assert(inst.wf(circuit.num_qubits, circuit.num_clbits));
        let body = inst.blocks[0];
        let deeper = path.push(inst.node);
        assert(site.scope.take(deeper.len() as int) =~= deeper) by {
            assert(site.scope[path.len() as int] == below[0]);
        }
        assert(site.scope.skip(deeper.len() as int) =~= below.drop_first());
        assert(collects_at(body, deeper, site));
        assert(circuit.ops.take(circuit.ops.len() as int) =~= circuit.ops);
        lemma_nested_holds(circuit, path, order, circuit.ops.len() as int, at);
        lemma_sweep_reports_every_collector(body, deeper, order, site);
        let held = swept(body, deeper, order)->Ok_0;
        assert(held[held.index_of(site)] == site);
        assert(inner.contains(site));
        let k = inner.index_of(site);
        match order {
            ScopeOrder::Innermost => assert(sites[k] == site),
            ScopeOrder::Outermost => assert(sites[own.len() + k] == site),
        }
    }
}

proof fn lemma_own_holds(ops: Seq<InstructionModel>, path: Seq<usize>, count: int, at: int)
    requires
        0 <= at < count <= ops.len(),
        ops[at].op.is_collector(),
    ensures
        own_collectors(ops.take(count), path).contains(SiteModel { scope: path, node: ops[at].node }),
    decreases count,
{
    let site = SiteModel { scope: path, node: ops[at].node };
    let run = ops.take(count);
    let before = own_collectors(ops.take(count - 1), path);
    let after = own_collectors(run, path);
    assert(run.drop_last() =~= ops.take(count - 1));
    assert(run.last() == ops[count - 1]);
    if at == count - 1 {
        assert(after[before.len() as int] == site);
    } else {
        lemma_own_holds(ops, path, count - 1, at);
        assert(after[before.index_of(site)] == site);
    }
}

proof fn lemma_nested_holds(
    circuit: CircuitModel,
    path: Seq<usize>,
    order: ScopeOrder,
    count: int,
    at: int,
)
    requires
        0 <= at < count <= circuit.ops.len(),
        nested_collectors(circuit.ops.take(count), path, order) is Ok,
        circuit.ops[at].op.is_content_box(),
    ensures
        ({
            let inst = circuit.ops[at];
            let inner = swept(inst.blocks[0], path.push(inst.node), order);
            &&& inner is Ok
            &&& forall|k: int|
                0 <= k < inner->Ok_0.len() ==> nested_collectors(
                    circuit.ops.take(count),
                    path,
                    order,
                )->Ok_0.contains(#[trigger] inner->Ok_0[k])
        }),
    decreases count,
{
    let inst = circuit.ops[at];
    let run = circuit.ops.take(count);
    assert(run.drop_last() =~= circuit.ops.take(count - 1));
    assert(run.last() == circuit.ops[count - 1]);
    let before = nested_collectors(circuit.ops.take(count - 1), path, order)->Ok_0;
    let after = nested_collectors(run, path, order)->Ok_0;
    let inner = swept(inst.blocks[0], path.push(inst.node), order);
    if at == count - 1 {
        assert forall|k: int| 0 <= k < inner->Ok_0.len() implies after.contains(
            #[trigger] inner->Ok_0[k],
        ) by {
            assert(after[before.len() + k] == inner->Ok_0[k]);
        }
    } else {
        lemma_nested_holds(circuit, path, order, count - 1, at);
        assert forall|k: int| 0 <= k < inner->Ok_0.len() implies after.contains(
            #[trigger] inner->Ok_0[k],
        ) by {
            let j = before.index_of(inner->Ok_0[k]);
            assert(after[j] == before[j]);
        }
    }
}

/// Whether one scope encloses another.
pub open spec fn encloses(outer: Seq<usize>, inner: Seq<usize>) -> bool {
    outer.len() < inner.len() && inner.take(outer.len() as int) == outer
}

/// Whether two sites below a scope may come in this order in a sweep: a scope does not come before one it encloses
/// where the innermost come first, nor after one where the outermost do, and in one scope the circuit's order holds.
pub open spec fn in_sweep_order(
    circuit: CircuitModel,
    path: Seq<usize>,
    order: ScopeOrder,
    earlier: SiteModel,
    later: SiteModel,
) -> bool {
    &&& order == ScopeOrder::Outermost ==> !encloses(later.scope, earlier.scope)
    &&& order == ScopeOrder::Innermost ==> !encloses(earlier.scope, later.scope)
    &&& earlier.scope == later.scope ==> ({
        let scope = scope_of(circuit, earlier.scope.skip(path.len() as int))->Ok_0;
        scope.at(earlier.node) < scope.at(later.node)
    })
}

/// A sweep takes the scopes as asked, those outside before those inside or after them, and the collectors of one
/// scope in the circuit's order.
pub proof fn lemma_sweep_takes_scopes_in_order(
    circuit: CircuitModel,
    path: Seq<usize>,
    order: ScopeOrder,
)
    requires
        circuit.wf(),
        swept(circuit, path, order) is Ok,
    ensures
        forall|i: int, j: int|
            0 <= i < j < swept(circuit, path, order)->Ok_0.len() ==> in_sweep_order(
                circuit,
                path,
                order,
                #[trigger] swept(circuit, path, order)->Ok_0[i],
                #[trigger] swept(circuit, path, order)->Ok_0[j],
            ),
    decreases circuit, 1nat, 0nat,
{
    let count = circuit.ops.len() as int;
    assert(circuit.ops.take(count) =~= circuit.ops);
    let sites = swept(circuit, path, order)->Ok_0;
    let inner = nested_collectors(circuit.ops, path, order)->Ok_0;
    let own = own_collectors(circuit.ops, path);
    lemma_nested_each_once(circuit, path, order, count);
    lemma_own_each_once(circuit, path, count);
    lemma_nested_in_order(circuit, path, order, count);
    lemma_own_in_order(circuit, path, count);
    assert(path.skip(path.len() as int) =~= Seq::<usize>::empty());
    assert forall|i: int, j: int| 0 <= i < j < sites.len() implies in_sweep_order(
        circuit,
        path,
        order,
        #[trigger] sites[i],
        #[trigger] sites[j],
    ) by {
        match order {
            ScopeOrder::Innermost => {
                if j < inner.len() {
                    assert(sites[i] == inner[i] && sites[j] == inner[j]);
                } else if i < inner.len() {
                    assert(sites[i] == inner[i] && sites[j] == own[j - inner.len()]);
                } else {
                    assert(sites[i] == own[i - inner.len()] && sites[j] == own[j - inner.len()]);
                }
            },
            ScopeOrder::Outermost => {
                if j < own.len() {
                    assert(sites[i] == own[i] && sites[j] == own[j]);
                } else if i < own.len() {
                    assert(sites[i] == own[i] && sites[j] == inner[j - own.len()]);
                } else {
                    assert(sites[i] == inner[i - own.len()] && sites[j] == inner[j - own.len()]);
                }
            },
        }
    }
}

proof fn lemma_own_in_order(circuit: CircuitModel, path: Seq<usize>, count: int)
    requires
        circuit.wf(),
        0 <= count <= circuit.ops.len(),
    ensures
        forall|k: int|
            0 <= k < own_collectors(circuit.ops.take(count), path).len() ==> circuit.at(
                (#[trigger] own_collectors(circuit.ops.take(count), path)[k]).node,
            ) < count,
        forall|i: int, j: int|
            0 <= i < j < own_collectors(circuit.ops.take(count), path).len() ==> circuit.at(
                (#[trigger] own_collectors(circuit.ops.take(count), path)[i]).node,
            ) < circuit.at((#[trigger] own_collectors(circuit.ops.take(count), path)[j]).node),
    decreases count,
{
    if count > 0 {
        let run = circuit.ops.take(count);
        assert(run.drop_last() =~= circuit.ops.take(count - 1));
        assert(run.last() == circuit.ops[count - 1]);
        lemma_own_in_order(circuit, path, count - 1);
        lemma_at(circuit, count - 1);
        let before = own_collectors(circuit.ops.take(count - 1), path);
        let after = own_collectors(run, path);
        assert forall|k: int| 0 <= k < after.len() implies circuit.at((#[trigger] after[k]).node)
            < count && (k < before.len() ==> after[k] == before[k] && circuit.at(after[k].node) < count
            - 1) && (k >= before.len() ==> circuit.at(after[k].node) == count - 1) by {
            if k < before.len() {
                assert(after[k] == before[k]);
            }
        }
        assert forall|i: int, j: int| 0 <= i < j < after.len() implies circuit.at(
            (#[trigger] after[i]).node,
        ) < circuit.at((#[trigger] after[j]).node) by {
            if j < before.len() {
                assert(after[i] == before[i] && after[j] == before[j]);
            }
        }
    }
}

proof fn lemma_nested_in_order(
    circuit: CircuitModel,
    path: Seq<usize>,
    order: ScopeOrder,
    count: int,
)
    requires
        circuit.wf(),
        0 <= count <= circuit.ops.len(),
        nested_collectors(circuit.ops.take(count), path, order) is Ok,
    ensures
        forall|i: int, j: int|
            0 <= i < j < nested_collectors(circuit.ops.take(count), path, order)->Ok_0.len()
                ==> in_sweep_order(
                circuit,
                path,
                order,
                #[trigger] nested_collectors(circuit.ops.take(count), path, order)->Ok_0[i],
                #[trigger] nested_collectors(circuit.ops.take(count), path, order)->Ok_0[j],
            ),
    decreases circuit, 0nat, count,
{
    if count > 0 {
        let run = circuit.ops.take(count);
        let front = circuit.ops.take(count - 1);
        assert(run.drop_last() =~= front);
        lemma_nested_in_order(circuit, path, order, count - 1);
        lemma_nested_each_once(circuit, path, order, count - 1);
        let before = nested_collectors(front, path, order)->Ok_0;
        let after = nested_collectors(run, path, order)->Ok_0;
        let last = circuit.ops[count - 1];
        assert(run.last() == last);
        lemma_at(circuit, count - 1);
        assert(circuit.get(last.node) == last);
        assert(last.wf(circuit.num_qubits, circuit.num_clbits));
        if last.op.is_content_box() {
            let body = last.blocks[0];
            let deeper = path.push(last.node);
            assert(decreases_to!(circuit => circuit.ops));
            assert(decreases_to!(circuit.ops => circuit.ops[count - 1]));
            assert(decreases_to!(circuit.ops[count - 1] => circuit.ops[count - 1].blocks));
            assert(decreases_to!(circuit.ops[count - 1].blocks => circuit.ops[count - 1].blocks[0]));
            lemma_sweep_takes_scopes_in_order(body, deeper, order);
            lemma_sweep_reports_each_once(body, deeper, order);
            let inner = swept(body, deeper, order)->Ok_0;
            assert(after =~= before + inner);
            assert forall|k: int| 0 <= k < inner.len() implies (#[trigger] inner[k]).scope.len()
                > path.len() && inner[k].scope[path.len() as int] == last.node && scope_of(
                circuit,
                inner[k].scope.skip(path.len() as int),
            ) == scope_of(body, inner[k].scope.skip(deeper.len() as int)) by {
                let site = inner[k];
                assert(collects_at(body, deeper, site));
                assert(site.scope.take(deeper.len() as int)[path.len() as int] == last.node);
                let below = site.scope.skip(path.len() as int);
                assert(below[0] == last.node);
                assert(below.drop_first() =~= site.scope.skip(deeper.len() as int));
            }
            assert forall|k: int| 0 <= k < before.len() implies (#[trigger] before[k]).scope.len()
                > path.len() && before[k].scope[path.len() as int] != last.node by {
                let step = before[k].scope[path.len() as int];
                assert(in_run(front, step));
                let m = choose|m: int| 0 <= m < front.len() && (#[trigger] front[m]).node == step;
                assert(circuit.ops[m].node != circuit.ops[count - 1].node);
            }
            assert forall|i: int, j: int| 0 <= i < j < after.len() implies in_sweep_order(
                circuit,
                path,
                order,
                #[trigger] after[i],
                #[trigger] after[j],
            ) by {
                if j < before.len() {
                    assert(after[i] == before[i] && after[j] == before[j]);
                } else if i >= before.len() {
                    assert(after[i] == inner[i - before.len()] && after[j] == inner[j
                        - before.len()]);
                } else {
                    let one = before[i].scope;
                    let other = inner[j - before.len()].scope;
                    assert(after[i] == before[i] && after[j] == inner[j - before.len()]);
                    assert(one[path.len() as int] != other[path.len() as int]);
                    if encloses(one, other) {
                        assert(other.take(one.len() as int)[path.len() as int]
                            == other[path.len() as int]);
                    }
                    if encloses(other, one) {
                        assert(one.take(other.len() as int)[path.len() as int]
                            == one[path.len() as int]);
                    }
                }
            }
        } else {
            assert(after =~= before);
        }
    }
}

// --- What a walk meets, it meets once -----------------------------------------------------------

/// Whether a site is, or is inside, the instruction going by a number in a scope.
pub open spec fn inside_of(path: Seq<usize>, node: usize, site: SiteModel) -> bool {
    &&& site.scope.len() >= path.len()
    &&& path_of(site).take(path.len() as int) == path
    &&& path_of(site)[path.len() as int] == node
}

/// Whether no site comes up twice in a list.
pub open spec fn distinct_stops(ahead: Seq<Ahead>) -> bool {
    forall|i: int, j: int|
        0 <= i < j < ahead.len() && ahead[i] is At && ahead[j] is At ==> #[trigger] ahead[i]
            != #[trigger] ahead[j]
}

/// Whether every site of a list is, or is inside, an instruction of a run.
pub open spec fn stops_within(ops: Seq<InstructionModel>, path: Seq<usize>, ahead: Seq<Ahead>) -> bool {
    forall|k: int|
        0 <= k < ahead.len() ==> ((#[trigger] ahead[k]) matches Ahead::At(site) ==> within_run(
            ops,
            path,
            site,
        ))
}

/// Whether a site is, or is inside, an instruction of a run.
pub open spec fn within_run(ops: Seq<InstructionModel>, path: Seq<usize>, site: SiteModel) -> bool {
    exists|i: int| 0 <= i < ops.len() && inside_of(path, (#[trigger] ops[i]).node, site)
}

/// Whether a run of instructions is one a circuit can hold: no node number twice, and what it holds well
/// formed.
pub open spec fn run_wf(ops: Seq<InstructionModel>) -> bool {
    &&& forall|i: int, j: int|
        0 <= i < j < ops.len() ==> (#[trigger] ops[i]).node != (#[trigger] ops[j]).node
    &&& forall|i: int, b: int|
        0 <= i < ops.len() && 0 <= b < ops[i].blocks.len() ==> (#[trigger] ops[i].blocks[b]).wf()
}

/// A well-formed circuit's instructions are a run it can hold, and so is any part of them.
pub proof fn lemma_run_wf(circuit: CircuitModel, from: int, to: int)
    requires
        circuit.wf(),
        0 <= from <= to <= circuit.ops.len(),
    ensures
        run_wf(circuit.ops.subrange(from, to)),
{
    let ops = circuit.ops.subrange(from, to);
    assert forall|i: int, j: int| 0 <= i < j < ops.len() implies (#[trigger] ops[i]).node != (
    #[trigger] ops[j]).node by {
        assert(circuit.ops[from + i].node != circuit.ops[from + j].node);
    }
    assert forall|i: int, b: int| 0 <= i < ops.len() && 0 <= b < ops[i].blocks.len() implies (
    #[trigger] ops[i].blocks[b]).wf() by {
        assert(circuit.ops[from + i].wf(circuit.num_qubits, circuit.num_clbits));
    }
}

/// A wire meets no site of a run twice.
pub proof fn lemma_along_distinct(ops: Seq<InstructionModel>, path: Seq<usize>, qubit: usize)
    requires
        run_wf(ops),
    ensures
        distinct_stops(along(ops, path, qubit)),
        stops_within(ops, path, along(ops, path, qubit)),
    decreases ops,
{
    if ops.len() > 0 {
        let front = ops.drop_last();
        let last = ops.last();
        assert forall|i: int, b: int| 0 <= i < front.len() && 0 <= b < front[i].blocks.len() implies (
        #[trigger] front[i].blocks[b]).wf() by {
            assert(ops[i].blocks[b].wf());
        }
        assert(run_wf(front));
        lemma_along_distinct(front, path, qubit);
        assert forall|b: int| 0 <= b < last.blocks.len() implies (#[trigger] last.blocks[b]).wf() by {
            assert(ops[ops.len() - 1].blocks[b].wf());
        }
        lemma_on_wire_distinct(last, path, qubit);
        let before = along(front, path, qubit);
        let own = on_wire(last, path, qubit);
        let whole = along(ops, path, qubit);
        assert forall|k: int| 0 <= k < whole.len() implies ((#[trigger] whole[k]) matches Ahead::At(
            site,
        ) ==> within_run(ops, path, site)) by {
            if let Ahead::At(site) = whole[k] {
                if k < before.len() {
                    assert(whole[k] == before[k]);
                    assert(within_run(front, path, site));
                    let i = choose|i: int|
                        0 <= i < front.len() && inside_of(path, (#[trigger] front[i]).node, site);
                    assert(inside_of(path, ops[i].node, site));
                } else {
                    assert(whole[k] == own[k - before.len()]);
                    assert(inside_of(path, ops[ops.len() - 1].node, site));
                }
            }
        }
        assert forall|i: int, j: int|
            0 <= i < j < whole.len() && whole[i] is At && whole[j] is At implies #[trigger] whole[i]
            != #[trigger] whole[j] by {
            if j < before.len() {
                assert(whole[i] == before[i] && whole[j] == before[j]);
            } else if i >= before.len() {
                assert(whole[i] == own[i - before.len()] && whole[j] == own[j - before.len()]);
            } else {
                assert(whole[i] == before[i] && whole[j] == own[j - before.len()]);
                let site = before[i]->At_0;
                assert(within_run(front, path, site));
                let m = choose|m: int|
                    0 <= m < front.len() && inside_of(path, (#[trigger] front[m]).node, site);
                assert(ops[m].node != ops[ops.len() - 1].node);
                assert(inside_of(path, last.node, own[j - before.len()]->At_0));
            }
        }
    }
}

proof fn lemma_on_wire_distinct(inst: InstructionModel, path: Seq<usize>, qubit: usize)
    requires
        forall|b: int| 0 <= b < inst.blocks.len() ==> (#[trigger] inst.blocks[b]).wf(),
    ensures
        distinct_stops(on_wire(inst, path, qubit)),
        forall|k: int|
            0 <= k < on_wire(inst, path, qubit).len() ==> ((#[trigger] on_wire(
                inst,
                path,
                qubit,
            )[k]) matches Ahead::At(site) ==> inside_of(path, inst.node, site)),
    decreases inst,
{
    let own = on_wire(inst, path, qubit);
    if inst.touches(qubit) {
        if !inst.op.is_content_box() {
            assert(path.push(inst.node).take(path.len() as int) =~= path);
        } else if inst.blocks.len() == 1 {
            let body = inst.blocks[0];
            let inner = path.push(inst.node);
            assert(body.wf());
            lemma_run_wf(body, 0, body.ops.len() as int);
            assert(body.ops.subrange(0, body.ops.len() as int) =~= body.ops);
            lemma_along_distinct(body.ops, inner, inst.local(qubit));
            assert forall|k: int| 0 <= k < own.len() implies ((#[trigger] own[k]) matches Ahead::At(
                site,
            ) ==> inside_of(path, inst.node, site)) by {
                if let Ahead::At(site) = own[k] {
                    assert(within_run(body.ops, inner, site));
                    let i = choose|i: int|
                        0 <= i < body.ops.len() && inside_of(inner, (#[trigger] body.ops[i]).node, site);
                    let steps = path_of(site);
                    assert(steps.take(inner.len() as int) == inner);
                    assert(steps.take(path.len() as int) =~= inner.take(path.len() as int));
                    assert(inner.take(path.len() as int) =~= path);
                    assert(steps[path.len() as int] == inner[path.len() as int]);
                }
            }
        }
    }
}

/// A wire meets no site past a position twice.
pub proof fn lemma_past_distinct(
    circuit: CircuitModel,
    path: Seq<usize>,
    at: int,
    qubit: usize,
    direction: Direction,
)
    requires
        circuit.wf(),
        0 <= at < circuit.ops.len(),
    ensures
        distinct_stops(past(circuit, path, at, qubit, direction)),
        stops_within(
            match direction {
                Direction::Left => circuit.ops.take(at),
                Direction::Right => circuit.ops.skip(at + 1),
            },
            path,
            past(circuit, path, at, qubit, direction),
        ),
{
    let count = circuit.ops.len() as int;
    match direction {
        Direction::Left => {
            lemma_run_wf(circuit, 0, at);
            assert(circuit.ops.subrange(0, at) =~= circuit.ops.take(at));
            let run = along(circuit.ops.take(at), path, qubit);
            lemma_along_distinct(circuit.ops.take(at), path, qubit);
            let ahead = run.reverse();
            assert forall|i: int, j: int|
                0 <= i < j < ahead.len() && ahead[i] is At && ahead[j] is At implies #[trigger] ahead[i]
                != #[trigger] ahead[j] by {
                assert(ahead[i] == run[run.len() - 1 - i]);
                assert(ahead[j] == run[run.len() - 1 - j]);
            }
            assert forall|k: int| 0 <= k < ahead.len() implies ((
            #[trigger] ahead[k]) matches Ahead::At(site) ==> within_run(
                circuit.ops.take(at),
                path,
                site,
            )) by {
                assert(ahead[k] == run[run.len() - 1 - k]);
            }
        },
        Direction::Right => {
            lemma_run_wf(circuit, at + 1, count);
            assert(circuit.ops.subrange(at + 1, count) =~= circuit.ops.skip(at + 1));
            lemma_along_distinct(circuit.ops.skip(at + 1), path, qubit);
        },
    }
}

/// What wires meet on one side of an instruction, they do not meet on the other.
pub proof fn lemma_sides_apart(
    circuit: CircuitModel,
    path: Seq<usize>,
    at: int,
    left: SiteModel,
    right: SiteModel,
)
    requires
        circuit.wf(),
        0 <= at < circuit.ops.len(),
        within_run(circuit.ops.take(at), path, left),
        within_run(circuit.ops.skip(at + 1), path, right),
    ensures
        left != right,
{
    let before = circuit.ops.take(at);
    let after = circuit.ops.skip(at + 1);
    let i = choose|i: int| 0 <= i < before.len() && inside_of(path, (#[trigger] before[i]).node, left);
    let j = choose|j: int| 0 <= j < after.len() && inside_of(path, (#[trigger] after[j]).node, right);
    assert(circuit.ops[i].node != circuit.ops[at + 1 + j].node);
}

} // verus!
