//! A circuit as beads on its wires: everything a wire passes, content boxes opened up and collect boxes left closed,
//! each with the steps it takes there.
//!
//! The beads of a wire, put end to end, are what the circuit does on that wire. Rewriting an instruction replaces its
//! bead, and taking one out drops it; every other bead stays as and where it was.

use vstd::prelude::*;

use crate::circuit::wires_below;
use crate::circuit::CircuitModel;
use crate::circuit::InstructionModel;
use crate::circuit::OperationModel;
use crate::emission_circuit_navigation::along;
use crate::emission_circuit_navigation::inside_of;
use crate::emission_circuit_navigation::lemma_get;
use crate::emission_circuit_navigation::lemma_rewrite;
use crate::emission_circuit_navigation::lemma_stands_at_exists;
use crate::emission_circuit_navigation::lifted;
use crate::emission_circuit_navigation::no_descent;
use crate::emission_circuit_navigation::on_wire;
use crate::emission_circuit_navigation::path_of;
use crate::emission_circuit_navigation::same_but;
use crate::emission_circuit_navigation::scope_of;
use crate::emission_circuit_navigation::stands_at;
use crate::emission_circuit_navigation::through;
use crate::emission_circuit_navigation::with_op;
use crate::emission_circuit_navigation::with_scope;
use crate::emission_circuit_navigation::within_run;
use crate::emission_circuit_navigation::without;
use crate::emission_circuit_navigation::Ahead;
use crate::emission_circuit_navigation::SiteModel;
use crate::flat::flat;
use crate::flat::flat_of;
use crate::flat::lemma_on_qubit_add;
use crate::flat::lemma_through_twice;
use crate::flat::on_qubit;
use crate::flat::own_qubits;
use crate::flat::steps_of;
use crate::flat::Step;

verus! {

/// Something a wire passes, and the steps it takes there.
#[verifier::ext_equal]
pub struct Bead {
    pub stop: Ahead,
    pub steps: Seq<Step>,
}

/// Whether an instruction is on a wire, if there is a wire to be on.
pub open spec fn met(inst: InstructionModel, wire: Option<usize>) -> bool {
    match wire {
        Some(w) => inst.touches(w),
        None => true,
    }
}

/// A wire as a box has it.
pub open spec fn inner_wire(inst: InstructionModel, wire: Option<usize>) -> Option<usize> {
    match wire {
        Some(w) => Some(inst.local(w)),
        None => None,
    }
}

/// Those of some steps that are on a wire, or all if there is none.
pub open spec fn seen(steps: Seq<Step>, frame: Seq<usize>, wire: Option<usize>) -> Seq<Step> {
    match wire {
        Some(w) => on_qubit(steps, frame[w as int]),
        None => steps,
    }
}

/// The beads one instruction puts on a wire.
pub open spec fn strung_of(
    inst: InstructionModel,
    path: Seq<usize>,
    frame: Seq<usize>,
    wire: Option<usize>,
) -> Seq<Bead>
    decreases inst,
{
    if !met(inst, wire) {
        Seq::empty()
    } else if !inst.op.is_content_box() {
        seq![
            Bead {
                stop: Ahead::At(SiteModel { scope: path, node: inst.node }),
                steps: seen(flat_of(inst, frame), frame, wire),
            },
        ]
    } else if inst.blocks.len() != 1 {
        seq![Bead { stop: Ahead::Broken(no_descent(inst)), steps: Seq::empty() }]
    } else {
        strung(
            inst.blocks[0].ops,
            path.push(inst.node),
            through(frame, inst.qubits),
            inner_wire(inst, wire),
        )
    }
}

/// The beads of a run on a wire, in circuit order, or all beads of the run if there is no wire.
pub open spec fn strung(
    ops: Seq<InstructionModel>,
    path: Seq<usize>,
    frame: Seq<usize>,
    wire: Option<usize>,
) -> Seq<Bead>
    decreases ops,
{
    if ops.len() == 0 {
        Seq::empty()
    } else {
        strung(ops.drop_last(), path, frame, wire) + strung_of(ops.last(), path, frame, wire)
    }
}

/// The steps of some beads, end to end.
pub open spec fn joined(beads: Seq<Bead>) -> Seq<Step>
    decreases beads.len(),
{
    if beads.len() == 0 {
        Seq::empty()
    } else {
        joined(beads.drop_last()) + beads.last().steps
    }
}

/// Some beads with others in place of the one at a site.
pub open spec fn patched(beads: Seq<Bead>, site: SiteModel, put: Seq<Bead>) -> Seq<Bead>
    decreases beads.len(),
{
    if beads.len() == 0 {
        Seq::empty()
    } else {
        patched(beads.drop_last(), site, put) + (if beads.last().stop == Ahead::At(site) {
            put
        } else {
            seq![beads.last()]
        })
    }
}

/// Which circuit qubit each wire of a scope is.
pub open spec fn frame_at(root: CircuitModel, scope: Seq<usize>, frame: Seq<usize>) -> Seq<usize>
    decreases scope.len(),
{
    if scope.len() == 0 {
        frame
    } else {
        let inst = root.get(scope[0]);
        frame_at(inst.blocks[0], scope.drop_first(), through(frame, inst.qubits))
    }
}

/// Whether a frame tells at least this many wires apart.
pub open spec fn tells_apart(frame: Seq<usize>, count: nat) -> bool {
    &&& frame.no_duplicates()
    &&& frame.len() >= count
}

/// Whether a run's instructions are well formed on this many wires.
pub open spec fn run_on(ops: Seq<InstructionModel>, num_qubits: nat, num_clbits: nat) -> bool {
    forall|i: int| 0 <= i < ops.len() ==> (#[trigger] ops[i]).wf(num_qubits, num_clbits)
}

/// Whether steps are on some qubits only.
pub open spec fn steps_within(steps: Seq<Step>, qubits: Seq<usize>) -> bool {
    forall|i: int, k: int|
        0 <= i < steps.len() && 0 <= k < steps[i].qubits.len() ==> qubits.contains(
            #[trigger] steps[i].qubits[k],
        )
}

/// A frame read through wires that differ tells them apart.
pub proof fn lemma_through_apart(frame: Seq<usize>, count: nat, wires: Seq<usize>)
    requires
        tells_apart(frame, count),
        wires_below(wires, count),
    ensures
        tells_apart(through(frame, wires), wires.len()),
{
    let read = through(frame, wires);
    assert forall|i: int, j: int| 0 <= i < read.len() && 0 <= j < read.len() && i != j implies read[i]
        != read[j] by {
        assert(wires[i] != wires[j]);
        assert(wires[i] < count && wires[j] < count);
    }
}

/// What a run does, it does on the wires it is on.
pub proof fn lemma_flat_within(
    ops: Seq<InstructionModel>,
    frame: Seq<usize>,
    num_qubits: nat,
    num_clbits: nat,
)
    requires
        run_on(ops, num_qubits, num_clbits),
        frame.len() >= num_qubits,
    ensures
        steps_within(flat(ops, frame), frame),
    decreases ops,
{
    if ops.len() > 0 {
        let front = ops.drop_last();
        let last = ops.len() - 1;
        assert forall|i: int| 0 <= i < front.len() implies (#[trigger] front[i]).wf(
            num_qubits,
            num_clbits,
        ) by {
            assert(ops[i] == front[i]);
        }
        lemma_flat_within(front, frame, num_qubits, num_clbits);
        assert(ops[last].wf(num_qubits, num_clbits));
        lemma_flat_of_within(ops[last], frame, num_qubits, num_clbits);
        let own = flat_of(ops[last], frame);
        let read = through(frame, ops[last].qubits);
        let before = flat(front, frame);
        let all = flat(ops, frame);
        assert forall|i: int, k: int|
            0 <= i < all.len() && 0 <= k < all[i].qubits.len() implies frame.contains(
            #[trigger] all[i].qubits[k],
        ) by {
            if i < before.len() {
                assert(all[i] == before[i]);
                assert(frame.contains(before[i].qubits[k]));
            } else {
                assert(all[i] == own[i - before.len()]);
                let q = own[i - before.len()].qubits[k];
                assert(read.contains(q));
                let m = read.index_of(q);
                assert(read[m] == q);
                assert(ops[last].qubits[m] < num_qubits);
                assert(frame[ops[last].qubits[m] as int] == q);
            }
        }
    }
}

/// What an instruction does, it does on its own wires.
pub proof fn lemma_flat_of_within(
    inst: InstructionModel,
    frame: Seq<usize>,
    num_qubits: nat,
    num_clbits: nat,
)
    requires
        inst.wf(num_qubits, num_clbits),
        frame.len() >= num_qubits,
    ensures
        steps_within(flat_of(inst, frame), through(frame, inst.qubits)),
    decreases inst,
{
    let read = through(frame, inst.qubits);
    if !inst.op.is_box() {
        let own = flat_of(inst, frame);
        assert(own.len() == 1 && own[0].qubits == read);
        assert forall|k: int| 0 <= k < read.len() implies read.contains(#[trigger] read[k]) by {}
    } else if inst.blocks.len() == 1 {
        let body = inst.blocks[0];
        assert(body.wf());
        lemma_flat_within(body.ops, read, body.num_qubits, body.num_clbits);
    }
}

/// Steps on other qubits are not seen on a qubit.
pub proof fn lemma_off_qubit(steps: Seq<Step>, qubits: Seq<usize>, qubit: usize)
    requires
        steps_within(steps, qubits),
        !qubits.contains(qubit),
    ensures
        on_qubit(steps, qubit) == Seq::<Step>::empty(),
    decreases steps.len(),
{
    if steps.len() > 0 {
        let front = steps.drop_last();
        assert forall|i: int, k: int|
            0 <= i < front.len() && 0 <= k < front[i].qubits.len() implies qubits.contains(
            #[trigger] front[i].qubits[k],
        ) by {
            assert(steps[i].qubits[k] == front[i].qubits[k]);
        }
        lemma_off_qubit(front, qubits, qubit);
        let last = steps.len() - 1;
        if steps.last().qubits.contains(qubit) {
            let k = steps.last().qubits.index_of(qubit);
            assert(qubits.contains(steps[last].qubits[k]));
        }
    }
}

pub proof fn lemma_joined_add(left: Seq<Bead>, right: Seq<Bead>)
    ensures
        joined(left + right) == joined(left) + joined(right),
    decreases right.len(),
{
    if right.len() == 0 {
        assert(left + right =~= left);
        assert(joined(left) + Seq::<Step>::empty() =~= joined(left));
    } else {
        lemma_joined_add(left, right.drop_last());
        assert((left + right).drop_last() =~= left + right.drop_last());
        assert((left + right).last() == right.last());
        assert(joined(left) + joined(right.drop_last()) + right.last().steps =~= joined(left)
            + joined(right));
    }
}

pub proof fn lemma_joined_one(bead: Bead)
    ensures
        joined(seq![bead]) == bead.steps,
{
    assert(seq![bead].drop_last() =~= Seq::<Bead>::empty());
    assert(joined(Seq::<Bead>::empty()) =~= Seq::<Step>::empty());
    assert(Seq::<Step>::empty() + bead.steps =~= bead.steps);
}

pub proof fn lemma_strung_add(
    left: Seq<InstructionModel>,
    right: Seq<InstructionModel>,
    path: Seq<usize>,
    frame: Seq<usize>,
    wire: Option<usize>,
)
    ensures
        strung(left + right, path, frame, wire) == strung(left, path, frame, wire) + strung(
            right,
            path,
            frame,
            wire,
        ),
    decreases right.len(),
{
    if right.len() == 0 {
        assert(left + right =~= left);
        assert(strung(left, path, frame, wire) + Seq::<Bead>::empty() =~= strung(
            left,
            path,
            frame,
            wire,
        ));
    } else {
        lemma_strung_add(left, right.drop_last(), path, frame, wire);
        assert((left + right).drop_last() =~= left + right.drop_last());
        assert((left + right).last() == right.last());
        assert(strung(left + right, path, frame, wire) =~= strung(left, path, frame, wire) + strung(
            right,
            path,
            frame,
            wire,
        ));
    }
}

pub proof fn lemma_strung_one(
    inst: InstructionModel,
    path: Seq<usize>,
    frame: Seq<usize>,
    wire: Option<usize>,
)
    ensures
        strung(seq![inst], path, frame, wire) == strung_of(inst, path, frame, wire),
{
    let one = seq![inst];
    assert(one.drop_last() =~= Seq::<InstructionModel>::empty());
    assert(strung(one.drop_last(), path, frame, wire) =~= Seq::<Bead>::empty());
    assert(one.last() == inst);
    assert(Seq::<Bead>::empty() + strung_of(inst, path, frame, wire) =~= strung_of(
        inst,
        path,
        frame,
        wire,
    ));
}

/// A run is what comes before an instruction, the instruction, and what comes after.
pub proof fn lemma_strung_split(
    ops: Seq<InstructionModel>,
    at: int,
    path: Seq<usize>,
    frame: Seq<usize>,
    wire: Option<usize>,
)
    requires
        0 <= at < ops.len(),
    ensures
        strung(ops, path, frame, wire) == strung(ops.take(at), path, frame, wire) + strung_of(
            ops[at],
            path,
            frame,
            wire,
        ) + strung(ops.skip(at + 1), path, frame, wire),
{
    let one = seq![ops[at]];
    assert(ops =~= ops.take(at) + one + ops.skip(at + 1));
    lemma_strung_add(ops.take(at) + one, ops.skip(at + 1), path, frame, wire);
    lemma_strung_add(ops.take(at), one, path, frame, wire);
    lemma_strung_one(ops[at], path, frame, wire);
}

/// What the beads of a wire take, end to end, is what the run does on that wire.
pub proof fn lemma_beads_are_the_run(
    ops: Seq<InstructionModel>,
    path: Seq<usize>,
    frame: Seq<usize>,
    wire: Option<usize>,
    num_qubits: nat,
    num_clbits: nat,
)
    requires
        run_on(ops, num_qubits, num_clbits),
        tells_apart(frame, num_qubits),
        wire matches Some(w) ==> w < num_qubits,
    ensures
        joined(strung(ops, path, frame, wire)) == seen(flat(ops, frame), frame, wire),
    decreases ops,
{
    if ops.len() > 0 {
        let front = ops.drop_last();
        let last = ops.len() - 1;
        assert forall|i: int| 0 <= i < front.len() implies (#[trigger] front[i]).wf(
            num_qubits,
            num_clbits,
        ) by {
            assert(ops[i] == front[i]);
        }
        lemma_beads_are_the_run(front, path, frame, wire, num_qubits, num_clbits);
        assert(ops[last].wf(num_qubits, num_clbits));
        lemma_beads_are_the_instruction(ops[last], path, frame, wire, num_qubits, num_clbits);
        lemma_joined_add(
            strung(front, path, frame, wire),
            strung_of(ops[last], path, frame, wire),
        );
        if let Some(w) = wire {
            lemma_on_qubit_add(flat(front, frame), flat_of(ops[last], frame), frame[w as int]);
        }
    }
}

pub proof fn lemma_beads_are_the_instruction(
    inst: InstructionModel,
    path: Seq<usize>,
    frame: Seq<usize>,
    wire: Option<usize>,
    num_qubits: nat,
    num_clbits: nat,
)
    requires
        inst.wf(num_qubits, num_clbits),
        tells_apart(frame, num_qubits),
        wire matches Some(w) ==> w < num_qubits,
    ensures
        joined(strung_of(inst, path, frame, wire)) == seen(flat_of(inst, frame), frame, wire),
    decreases inst,
{
    let beads = strung_of(inst, path, frame, wire);
    let read = through(frame, inst.qubits);
    if !met(inst, wire) {
        let w = wire->Some_0;
        lemma_flat_of_within(inst, frame, num_qubits, num_clbits);
        if read.contains(frame[w as int]) {
            let m = read.index_of(frame[w as int]);
            assert(read[m] == frame[w as int]);
            assert(inst.qubits[m] < num_qubits);
            assert(frame[inst.qubits[m] as int] == frame[w as int]);
            assert(inst.qubits[m] == w);
            assert(inst.touches(w));
        }
        lemma_off_qubit(flat_of(inst, frame), read, frame[w as int]);
    } else if !inst.op.is_content_box() {
        lemma_joined_one(beads[0]);
        assert(beads =~= seq![beads[0]]);
    } else if inst.blocks.len() != 1 {
        lemma_joined_one(beads[0]);
        assert(beads =~= seq![beads[0]]);
        assert(flat_of(inst, frame) =~= Seq::<Step>::empty());
    } else {
        let body = inst.blocks[0];
        assert(body.wf());
        lemma_through_apart(frame, num_qubits, inst.qubits);
        if let Some(w) = wire {
            assert(inst.qubits[inst.qubits.index_of(w)] == w);
            assert(read[inst.local(w) as int] == frame[w as int]);
        }
        lemma_beads_are_the_run(
            body.ops,
            path.push(inst.node),
            read,
            inner_wire(inst, wire),
            body.num_qubits,
            body.num_clbits,
        );
    }
}

/// The beads of a wire stop where the wire does.
pub proof fn lemma_beads_follow_the_wire(
    ops: Seq<InstructionModel>,
    path: Seq<usize>,
    frame: Seq<usize>,
    w: usize,
)
    ensures
        strung(ops, path, frame, Some(w)).len() == along(ops, path, w).len(),
        forall|k: int|
            0 <= k < along(ops, path, w).len() ==> (#[trigger] strung(ops, path, frame, Some(w))[k]).stop
                == along(ops, path, w)[k],
    decreases ops,
{
    if ops.len() > 0 {
        let last = ops.len() - 1;
        lemma_beads_follow_the_wire(ops.drop_last(), path, frame, w);
        let inst = ops[last];
        if inst.touches(w) && inst.op.is_content_box() && inst.blocks.len() == 1 {
            assert(decreases_to!(ops => ops[last]));
            assert(decreases_to!(ops[last] => ops[last].blocks));
            assert(decreases_to!(ops[last].blocks => ops[last].blocks[0]));
            assert(decreases_to!(ops[last].blocks[0] => ops[last].blocks[0].ops));
            lemma_beads_follow_the_wire(
                inst.blocks[0].ops,
                path.push(inst.node),
                through(frame, inst.qubits),
                inst.local(w),
            );
        }
        let own = strung_of(inst, path, frame, Some(w));
        assert(own.len() == on_wire(inst, path, w).len());
        assert forall|k: int| 0 <= k < own.len() implies (#[trigger] own[k]).stop == on_wire(
            inst,
            path,
            w,
        )[k] by {}
        let before = strung(ops.drop_last(), path, frame, Some(w));
        assert forall|k: int| 0 <= k < along(ops, path, w).len() implies (
        #[trigger] strung(ops, path, frame, Some(w))[k]).stop == along(ops, path, w)[k] by {
            if k < before.len() {
                assert(strung(ops, path, frame, Some(w))[k] == before[k]);
            } else {
                assert(strung(ops, path, frame, Some(w))[k] == own[k - before.len()]);
            }
        }
    }
}

/// Whether no site has two beads.
pub open spec fn single(beads: Seq<Bead>) -> bool {
    forall|i: int, j: int|
        0 <= i < j < beads.len() && beads[i].stop is At && beads[j].stop is At ==> (
        #[trigger] beads[i]).stop != (#[trigger] beads[j]).stop
}

/// Whether every bead at a site is at, or inside, an instruction of a run.
pub open spec fn beads_within(ops: Seq<InstructionModel>, path: Seq<usize>, beads: Seq<Bead>) -> bool {
    forall|k: int|
        0 <= k < beads.len() ==> ((#[trigger] beads[k]).stop matches Ahead::At(site) ==> within_run(
            ops,
            path,
            site,
        ))
}

/// The beads of a run are inside its instructions, and no site has two.
pub proof fn lemma_beads_single(
    circuit: CircuitModel,
    from: int,
    to: int,
    path: Seq<usize>,
    frame: Seq<usize>,
    wire: Option<usize>,
)
    requires
        circuit.wf(),
        0 <= from <= to <= circuit.ops.len(),
    ensures
        single(strung(circuit.ops.subrange(from, to), path, frame, wire)),
        beads_within(
            circuit.ops.subrange(from, to),
            path,
            strung(circuit.ops.subrange(from, to), path, frame, wire),
        ),
    decreases circuit, to - from,
{
    let ops = circuit.ops.subrange(from, to);
    let beads = strung(ops, path, frame, wire);
    if from < to {
        let last = to - 1;
        let inst = circuit.ops[last];
        assert(ops.drop_last() =~= circuit.ops.subrange(from, last));
        assert(ops.last() == inst);
        lemma_beads_single(circuit, from, last, path, frame, wire);
        let before = strung(ops.drop_last(), path, frame, wire);
        let own = strung_of(inst, path, frame, wire);
        assert(inst.wf(circuit.num_qubits, circuit.num_clbits));
        assert(single(own) && (forall|k: int|
            0 <= k < own.len() ==> ((#[trigger] own[k]).stop matches Ahead::At(site) ==> inside_of(
                path,
                inst.node,
                site,
            )))) by {
            if met(inst, wire) {
                if !inst.op.is_content_box() {
                    assert(path.push(inst.node).take(path.len() as int) =~= path);
                } else if inst.blocks.len() == 1 {
                    let body = inst.blocks[0];
                    let inner = path.push(inst.node);
                    assert(body.wf());
                    assert(body.ops.subrange(0, body.ops.len() as int) =~= body.ops);
                    assert(decreases_to!(circuit => circuit.ops));
                    assert(decreases_to!(circuit.ops => circuit.ops[last]));
                    assert(decreases_to!(circuit.ops[last] => circuit.ops[last].blocks));
                    assert(decreases_to!(circuit.ops[last].blocks => circuit.ops[last].blocks[0]));
                    lemma_beads_single(
                        body,
                        0,
                        body.ops.len() as int,
                        inner,
                        through(frame, inst.qubits),
                        inner_wire(inst, wire),
                    );
                    assert forall|k: int| 0 <= k < own.len() implies ((
                    #[trigger] own[k]).stop matches Ahead::At(site) ==> inside_of(
                        path,
                        inst.node,
                        site,
                    )) by {
                        if let Ahead::At(site) = own[k].stop {
                            assert(within_run(body.ops, inner, site));
                            let i = choose|i: int|
                                0 <= i < body.ops.len() && inside_of(
                                    inner,
                                    (#[trigger] body.ops[i]).node,
                                    site,
                                );
                            let steps = path_of(site);
                            assert(steps.take(inner.len() as int) == inner);
                            assert(steps.take(path.len() as int) =~= inner.take(path.len() as int));
                            assert(inner.take(path.len() as int) =~= path);
                            assert(steps[path.len() as int] == inner[path.len() as int]);
                        }
                    }
                }
            }
        }
        assert forall|k: int| 0 <= k < beads.len() implies ((
        #[trigger] beads[k]).stop matches Ahead::At(site) ==> within_run(ops, path, site)) by {
            if let Ahead::At(site) = beads[k].stop {
                if k < before.len() {
                    assert(beads[k] == before[k]);
                    assert(within_run(ops.drop_last(), path, site));
                    let i = choose|i: int|
                        0 <= i < ops.drop_last().len() && inside_of(
                            path,
                            (#[trigger] ops.drop_last()[i]).node,
                            site,
                        );
                    assert(inside_of(path, ops[i].node, site));
                } else {
                    assert(beads[k] == own[k - before.len()]);
                    assert(inside_of(path, ops[ops.len() - 1].node, site));
                }
            }
        }
        assert forall|i: int, j: int|
            0 <= i < j < beads.len() && beads[i].stop is At && beads[j].stop is At implies (
        #[trigger] beads[i]).stop != (#[trigger] beads[j]).stop by {
            if j < before.len() {
                assert(beads[i] == before[i] && beads[j] == before[j]);
            } else if i >= before.len() {
                assert(beads[i] == own[i - before.len()] && beads[j] == own[j - before.len()]);
            } else {
                assert(beads[i] == before[i] && beads[j] == own[j - before.len()]);
                let site = before[i].stop->At_0;
                assert(within_run(ops.drop_last(), path, site));
                let m = choose|m: int|
                    0 <= m < ops.drop_last().len() && inside_of(
                        path,
                        (#[trigger] ops.drop_last()[m]).node,
                        site,
                    );
                assert(circuit.ops[from + m].node != circuit.ops[last].node);
                assert(inside_of(path, inst.node, own[j - before.len()].stop->At_0));
            }
        }
    }
}

/// Whether no bead is at a site.
pub open spec fn absent(beads: Seq<Bead>, site: SiteModel) -> bool {
    forall|k: int| 0 <= k < beads.len() ==> (#[trigger] beads[k]).stop != Ahead::At(site)
}

pub proof fn lemma_patched_add(left: Seq<Bead>, right: Seq<Bead>, site: SiteModel, put: Seq<Bead>)
    ensures
        patched(left + right, site, put) == patched(left, site, put) + patched(right, site, put),
    decreases right.len(),
{
    if right.len() == 0 {
        assert(left + right =~= left);
        assert(patched(left, site, put) + Seq::<Bead>::empty() =~= patched(left, site, put));
    } else {
        lemma_patched_add(left, right.drop_last(), site, put);
        assert((left + right).drop_last() =~= left + right.drop_last());
        assert((left + right).last() == right.last());
        assert(patched(left + right, site, put) =~= patched(left, site, put) + patched(
            right,
            site,
            put,
        ));
    }
}

/// Where a site has no bead, nothing is replaced.
pub proof fn lemma_patched_absent(beads: Seq<Bead>, site: SiteModel, put: Seq<Bead>)
    requires
        absent(beads, site),
    ensures
        patched(beads, site, put) == beads,
    decreases beads.len(),
{
    if beads.len() > 0 {
        let front = beads.drop_last();
        assert forall|k: int| 0 <= k < front.len() implies (#[trigger] front[k]).stop != Ahead::At(
            site,
        ) by {
            assert(beads[k] == front[k]);
        }
        lemma_patched_absent(front, site, put);
        assert(beads[beads.len() - 1] == beads.last());
        assert(patched(beads, site, put) =~= beads);
    }
}

pub proof fn lemma_patched_one(bead: Bead, site: SiteModel, put: Seq<Bead>)
    ensures
        patched(seq![bead], site, put) == if bead.stop == Ahead::At(site) {
            put
        } else {
            seq![bead]
        },
{
    assert(seq![bead].drop_last() =~= Seq::<Bead>::empty());
    assert(patched(Seq::<Bead>::empty(), site, put) =~= Seq::<Bead>::empty());
    assert(Seq::<Bead>::empty() + put =~= put);
    assert(Seq::<Bead>::empty() + seq![bead] =~= seq![bead]);
}

/// The one bead of a site is what is replaced.
pub proof fn lemma_patched_at(beads: Seq<Bead>, site: SiteModel, put: Seq<Bead>, a: int)
    requires
        single(beads),
        0 <= a < beads.len(),
        beads[a].stop == Ahead::At(site),
    ensures
        patched(beads, site, put) == beads.take(a) + put + beads.skip(a + 1),
        absent(beads.take(a), site),
        absent(beads.skip(a + 1), site),
{
    let before = beads.take(a);
    let after = beads.skip(a + 1);
    let one = seq![beads[a]];
    assert forall|k: int| 0 <= k < before.len() implies (#[trigger] before[k]).stop != Ahead::At(
        site,
    ) by {
        assert(before[k] == beads[k]);
        if beads[k].stop is At {
            assert(beads[k].stop != beads[a].stop);
        }
    }
    assert forall|k: int| 0 <= k < after.len() implies (#[trigger] after[k]).stop != Ahead::At(site) by {
        assert(after[k] == beads[a + 1 + k]);
        if beads[a + 1 + k].stop is At {
            assert(beads[a].stop != beads[a + 1 + k].stop);
        }
    }
    assert(beads =~= before + one + after);
    lemma_patched_add(before + one, after, site, put);
    lemma_patched_add(before, one, site, put);
    lemma_patched_one(beads[a], site, put);
    lemma_patched_absent(before, site, put);
    lemma_patched_absent(after, site, put);
}

/// Beside an instruction, nothing is at or inside it.
pub proof fn lemma_absent_beside(
    circuit: CircuitModel,
    at: int,
    path: Seq<usize>,
    frame: Seq<usize>,
    wire: Option<usize>,
    site: SiteModel,
)
    requires
        circuit.wf(),
        0 <= at < circuit.ops.len(),
        inside_of(path, circuit.ops[at].node, site),
    ensures
        absent(strung(circuit.ops.take(at), path, frame, wire), site),
        absent(strung(circuit.ops.skip(at + 1), path, frame, wire), site),
{
    let count = circuit.ops.len() as int;
    let before = circuit.ops.take(at);
    let after = circuit.ops.skip(at + 1);
    assert(circuit.ops.subrange(0, at) =~= before);
    assert(circuit.ops.subrange(at + 1, count) =~= after);
    lemma_beads_single(circuit, 0, at, path, frame, wire);
    lemma_beads_single(circuit, at + 1, count, path, frame, wire);
    let left = strung(before, path, frame, wire);
    let right = strung(after, path, frame, wire);
    assert forall|k: int| 0 <= k < left.len() implies (#[trigger] left[k]).stop != Ahead::At(site) by {
        if left[k].stop == Ahead::At(site) {
            assert(within_run(before, path, site));
            let i = choose|i: int|
                0 <= i < before.len() && inside_of(path, (#[trigger] before[i]).node, site);
            assert(circuit.ops[i].node != circuit.ops[at].node);
        }
    }
    assert forall|k: int| 0 <= k < right.len() implies (#[trigger] right[k]).stop != Ahead::At(site) by {
        if right[k].stop == Ahead::At(site) {
            assert(within_run(after, path, site));
            let i = choose|i: int|
                0 <= i < after.len() && inside_of(path, (#[trigger] after[i]).node, site);
            assert(circuit.ops[at].node != circuit.ops[at + 1 + i].node);
        }
    }
}

/// Where an instruction of a scope is replaced by others on the same wires or by none, only its bead is.
pub proof fn lemma_beads_of_change(
    circuit: CircuitModel,
    node: usize,
    with: Seq<InstructionModel>,
    path: Seq<usize>,
    frame: Seq<usize>,
    wire: Option<usize>,
    put: Seq<Bead>,
)
    requires
        circuit.wf(),
        circuit.has(node),
        !circuit.get(node).op.is_content_box(),
        met(circuit.get(node), wire) ==> strung(with, path, frame, wire) == put,
        !met(circuit.get(node), wire) ==> strung(with, path, frame, wire).len() == 0,
    ensures
        ({
            let at = circuit.at(node);
            strung(circuit.ops.take(at) + with + circuit.ops.skip(at + 1), path, frame, wire)
                == patched(
                strung(circuit.ops, path, frame, wire),
                SiteModel { scope: path, node },
                put,
            )
        }),
{
    let at = circuit.at(node);
    let inst = circuit.ops[at];
    assert(inst.node == node);
    let site = SiteModel { scope: path, node };
    let before = circuit.ops.take(at);
    let after = circuit.ops.skip(at + 1);
    lemma_strung_split(circuit.ops, at, path, frame, wire);
    lemma_strung_add(before + with, after, path, frame, wire);
    lemma_strung_add(before, with, path, frame, wire);
    assert(path_of(site).take(path.len() as int) =~= path);
    assert(inside_of(path, inst.node, site));
    lemma_absent_beside(circuit, at, path, frame, wire, site);
    let left = strung(before, path, frame, wire);
    let right = strung(after, path, frame, wire);
    let own = strung_of(inst, path, frame, wire);
    lemma_patched_add(left + own, right, site, put);
    lemma_patched_add(left, own, site, put);
    lemma_patched_absent(left, site, put);
    lemma_patched_absent(right, site, put);
    if met(inst, wire) {
        assert(own =~= seq![own[0]]);
        lemma_patched_one(own[0], site, put);
    } else {
        assert(own =~= Seq::<Bead>::empty());
        assert(patched(own, site, put) =~= Seq::<Bead>::empty());
        assert(strung(with, path, frame, wire) =~= Seq::<Bead>::empty());
    }
}

/// Whether a wire goes into every box on the way to a scope.
pub open spec fn goes_down(root: CircuitModel, scope: Seq<usize>, wire: Option<usize>) -> bool
    decreases scope.len(),
{
    scope.len() == 0 || (met(root.get(scope[0]), wire) && goes_down(
        root.get(scope[0]).blocks[0],
        scope.drop_first(),
        inner_wire(root.get(scope[0]), wire),
    ))
}

/// A wire as a scope has it.
pub open spec fn wire_at(root: CircuitModel, scope: Seq<usize>, wire: Option<usize>) -> Option<usize>
    decreases scope.len(),
{
    if scope.len() == 0 {
        wire
    } else {
        let inst = root.get(scope[0]);
        wire_at(inst.blocks[0], scope.drop_first(), inner_wire(inst, wire))
    }
}

/// The frame of a scope is of the frame it starts from, and tells the scope's wires apart.
pub proof fn lemma_frame_at(
    root: CircuitModel,
    scope: Seq<usize>,
    node: usize,
    frame: Seq<usize>,
    wire: Option<usize>,
)
    requires
        root.wf(),
        stands_at(root, scope, node),
        tells_apart(frame, root.num_qubits),
        wire matches Some(w) ==> w < root.num_qubits,
    ensures
        tells_apart(frame_at(root, scope, frame), scope_of(root, scope)->Ok_0.num_qubits),
        forall|k: int|
            0 <= k < frame_at(root, scope, frame).len() ==> frame.contains(
                #[trigger] frame_at(root, scope, frame)[k],
            ),
        goes_down(root, scope, wire) ==> (wire matches Some(w) ==> {
            &&& wire_at(root, scope, wire) matches Some(v)
            &&& v < scope_of(root, scope)->Ok_0.num_qubits
            &&& frame_at(root, scope, frame)[v as int] == frame[w as int]
        }),
        wire is None ==> goes_down(root, scope, wire) && wire_at(root, scope, wire) is None,
    decreases scope.len(),
{
    if scope.len() > 0 {
        let inst = root.get(scope[0]);
        assert(inst.wf(root.num_qubits, root.num_clbits));
        let body = inst.blocks[0];
        let read = through(frame, inst.qubits);
        lemma_through_apart(frame, root.num_qubits, inst.qubits);
        assert(body.wf());
        let rest = scope.drop_first();
        if met(inst, wire) {
            if let Some(w) = wire {
                assert(inst.qubits[inst.qubits.index_of(w)] == w);
            }
            lemma_frame_at(body, rest, node, read, inner_wire(inst, wire));
        } else {
            lemma_frame_at(body, rest, node, read, None);
        }
        let down = frame_at(root, scope, frame);
        assert forall|k: int| 0 <= k < down.len() implies frame.contains(#[trigger] down[k]) by {
            assert(read.contains(down[k]));
            let m = read.index_of(down[k]);
            assert(read[m] == down[k]);
            assert(inst.qubits[m] < root.num_qubits);
            assert(frame[inst.qubits[m] as int] == down[k]);
        }
    } else {
        assert forall|k: int| 0 <= k < frame.len() implies frame.contains(#[trigger] frame[k]) by {}
    }
}

/// Where a scope changes at one site, the beads change at that site.
pub proof fn lemma_beads_of_rewrite(
    root: CircuitModel,
    scope: Seq<usize>,
    node: usize,
    inner: CircuitModel,
    path: Seq<usize>,
    frame: Seq<usize>,
    wire: Option<usize>,
    put: Seq<Bead>,
)
    requires
        root.wf(),
        stands_at(root, scope, node),
        goes_down(root, scope, wire) ==> strung(
            inner.ops,
            path + scope,
            frame_at(root, scope, frame),
            wire_at(root, scope, wire),
        ) == patched(
            strung(
                scope_of(root, scope)->Ok_0.ops,
                path + scope,
                frame_at(root, scope, frame),
                wire_at(root, scope, wire),
            ),
            SiteModel { scope: path + scope, node },
            put,
        ),
    ensures
        strung(with_scope(root, scope, inner).ops, path, frame, wire) == patched(
            strung(root.ops, path, frame, wire),
            SiteModel { scope: path + scope, node },
            put,
        ),
    decreases scope.len(),
{
    let site = SiteModel { scope: path + scope, node };
    if scope.len() == 0 {
        assert(path + scope =~= path);
    } else {
        let at = root.at(scope[0]);
        let inst = root.ops[at];
        assert(root.get(scope[0]) == inst);
        assert(inst.node == scope[0]);
        assert(inst.wf(root.num_qubits, root.num_clbits));
        let rest = scope.drop_first();
        let here = path.push(scope[0]);
        let read = through(frame, inst.qubits);
        let changed = InstructionModel {
            blocks: seq![with_scope(inst.blocks[0], rest, inner)],
            ..inst
        };
        let after = root.ops.update(at, changed);
        assert(here + rest =~= path + scope);
        if met(inst, wire) {
            lemma_beads_of_rewrite(
                inst.blocks[0],
                rest,
                node,
                inner,
                here,
                read,
                inner_wire(inst, wire),
                put,
            );
        }
        lemma_strung_split(root.ops, at, path, frame, wire);
        lemma_strung_split(after, at, path, frame, wire);
        assert(after.take(at) =~= root.ops.take(at));
        assert(after.skip(at + 1) =~= root.ops.skip(at + 1));
        assert(path_of(site).take(path.len() as int) =~= path);
        assert(path_of(site)[path.len() as int] == scope[0]);
        lemma_absent_beside(root, at, path, frame, wire, site);
        let left = strung(root.ops.take(at), path, frame, wire);
        let right = strung(root.ops.skip(at + 1), path, frame, wire);
        let own = strung_of(inst, path, frame, wire);
        lemma_patched_add(left + own, right, site, put);
        lemma_patched_add(left, own, site, put);
        lemma_patched_absent(left, site, put);
        lemma_patched_absent(right, site, put);
        if !met(inst, wire) {
            assert(own =~= Seq::<Bead>::empty());
            assert(patched(own, site, put) =~= Seq::<Bead>::empty());
        }
        assert(strung_of(changed, path, frame, wire) == patched(own, site, put));
    }
}

/// Where an instruction that is no content box gets an operation and a body of its own width, its bead takes what
/// the body does.
pub proof fn lemma_beads_of_refill(
    root: CircuitModel,
    site: SiteModel,
    op: OperationModel,
    body: CircuitModel,
    frame: Seq<usize>,
    wire: Option<usize>,
)
    requires
        root.wf(),
        stands_at(root, site.scope, site.node),
        op.is_box(),
        !op.is_content_box(),
        tells_apart(frame, root.num_qubits),
        wire matches Some(w) ==> w < root.num_qubits,
    ensures
        ({
            let scope = scope_of(root, site.scope)->Ok_0;
            let down = frame_at(root, site.scope, frame);
            strung(
                with_scope(root, site.scope, with_op(scope, site.node, op, body)).ops,
                Seq::empty(),
                frame,
                wire,
            ) == patched(
                strung(root.ops, Seq::empty(), frame, wire),
                site,
                seq![
                    Bead {
                        stop: Ahead::At(site),
                        steps: seen(
                            flat(body.ops, through(down, scope.get(site.node).qubits)),
                            frame,
                            wire,
                        ),
                    },
                ],
            )
        }),
{
    let scope = scope_of(root, site.scope)->Ok_0;
    let down = frame_at(root, site.scope, frame);
    lemma_stands_at_exists(root, site.scope, site.node);
    let inst = scope.get(site.node);
    let at = scope.at(site.node);
    assert(scope.ops[at].node == site.node);
    lemma_stands_at_inside(root, site.scope, site.node);
    let changed = InstructionModel { op, params: Seq::empty(), blocks: seq![body], ..inst };
    let inner = with_op(scope, site.node, op, body);
    let none = Seq::<usize>::empty();
    assert(none + site.scope =~= site.scope);
    let steps = seen(flat(body.ops, through(down, inst.qubits)), frame, wire);
    let put = seq![Bead { stop: Ahead::At(site), steps }];
    lemma_frame_at(root, site.scope, site.node, frame, wire);
    if goes_down(root, site.scope, wire) {
        let inside = wire_at(root, site.scope, wire);
        let with = seq![changed];
        lemma_strung_one(changed, site.scope, down, inside);
        assert(flat_of(changed, down) == flat(body.ops, through(down, inst.qubits)));
        lemma_beads_of_change(scope, site.node, with, site.scope, down, inside, put);
        assert(inner.ops =~= scope.ops.take(at) + with + scope.ops.skip(at + 1));
    }
    lemma_beads_of_rewrite(root, site.scope, site.node, inner, none, frame, wire, put);
}

/// Where an instruction that is no content box is taken out, its bead goes.
pub proof fn lemma_beads_of_removal(
    root: CircuitModel,
    site: SiteModel,
    frame: Seq<usize>,
    wire: Option<usize>,
)
    requires
        root.wf(),
        stands_at(root, site.scope, site.node),
    ensures
        strung(
            with_scope(
                root,
                site.scope,
                without(scope_of(root, site.scope)->Ok_0, site.node),
            ).ops,
            Seq::empty(),
            frame,
            wire,
        ) == patched(strung(root.ops, Seq::empty(), frame, wire), site, Seq::empty()),
{
    let scope = scope_of(root, site.scope)->Ok_0;
    let down = frame_at(root, site.scope, frame);
    lemma_stands_at_exists(root, site.scope, site.node);
    let at = scope.at(site.node);
    assert(scope.ops[at].node == site.node);
    lemma_stands_at_inside(root, site.scope, site.node);
    let inner = without(scope, site.node);
    let none = Seq::<usize>::empty();
    assert(none + site.scope =~= site.scope);
    let put = Seq::<Bead>::empty();
    if goes_down(root, site.scope, wire) {
        let inside = wire_at(root, site.scope, wire);
        let with = Seq::<InstructionModel>::empty();
        assert(strung(with, site.scope, down, inside) =~= put);
        lemma_beads_of_change(scope, site.node, with, site.scope, down, inside, put);
        assert(inner.ops =~= scope.ops.take(at) + with + scope.ops.skip(at + 1));
    }
    lemma_beads_of_rewrite(root, site.scope, site.node, inner, none, frame, wire, put);
}

/// What stands at a site is no content box.
pub proof fn lemma_stands_at_inside(root: CircuitModel, scope: Seq<usize>, node: usize)
    requires
        stands_at(root, scope, node),
    ensures
        !scope_of(root, scope)->Ok_0.get(node).op.is_content_box(),
    decreases scope.len(),
{
    if scope.len() > 0 {
        lemma_stands_at_inside(root.get(scope[0]).blocks[0], scope.drop_first(), node);
    }
}

/// A change at a site leaves the frame of every scope as it was.
pub proof fn lemma_frame_kept(
    root: CircuitModel,
    scope: Seq<usize>,
    node: usize,
    inner: CircuitModel,
    other_scope: Seq<usize>,
    other: usize,
    frame: Seq<usize>,
)
    requires
        root.wf(),
        stands_at(root, scope, node),
        same_but(scope_of(root, scope)->Ok_0, node, inner),
        stands_at(root, other_scope, other),
    ensures
        frame_at(with_scope(root, scope, inner), other_scope, frame) == frame_at(
            root,
            other_scope,
            frame,
        ),
    decreases scope.len(),
{
    if other_scope.len() > 0 {
        let step = other_scope[0];
        let place = root.at(step);
        assert(root.ops[place].node == step);
        if scope.len() == 0 {
            assert(root.has(step) && step != node);
            assert(inner.get(step) == root.get(step));
        } else {
            lemma_rewrite(root, scope, node, inner);
            let after = with_scope(root, scope, inner);
            let at = root.at(scope[0]);
            let inst = root.ops[at];
            assert(root.get(scope[0]) == inst);
            assert(inst.node == scope[0]);
            assert(inst.wf(root.num_qubits, root.num_clbits));
            if step == scope[0] {
                lemma_get(after, step, at);
                lemma_frame_kept(
                    inst.blocks[0],
                    scope.drop_first(),
                    node,
                    inner,
                    other_scope.drop_first(),
                    other,
                    through(frame, inst.qubits),
                );
            } else {
                assert(after.ops[place] == root.ops[place]);
                lemma_get(after, step, place);
            }
        }
    }
}

/// What an instruction does on a wire is on its bead there; where it has none, it does nothing on the wire.
pub proof fn lemma_bead_of_site(
    root: CircuitModel,
    path: Seq<usize>,
    scope: Seq<usize>,
    node: usize,
    frame: Seq<usize>,
    wire: Option<usize>,
)
    requires
        root.wf(),
        stands_at(root, scope, node),
        tells_apart(frame, root.num_qubits),
        wire matches Some(w) ==> w < root.num_qubits,
    ensures
        ({
            let beads = strung(root.ops, path, frame, wire);
            let inst = scope_of(root, scope)->Ok_0.get(node);
            let site = SiteModel { scope: path + scope, node };
            let steps = seen(flat_of(inst, frame_at(root, scope, frame)), frame, wire);
            ||| beads.contains(Bead { stop: Ahead::At(site), steps })
            ||| absent(beads, site) && steps.len() == 0 && wire is Some
        }),
    decreases scope.len(),
{
    let beads = strung(root.ops, path, frame, wire);
    lemma_stands_at_exists(root, scope, node);
    let inst = scope_of(root, scope)->Ok_0.get(node);
    let site = SiteModel { scope: path + scope, node };
    let down = frame_at(root, scope, frame);
    let steps = seen(flat_of(inst, down), frame, wire);
    let bead = Bead { stop: Ahead::At(site), steps };
    let first = if scope.len() == 0 {
        node
    } else {
        scope[0]
    };
    let at = root.at(first);
    let outer = root.ops[at];
    assert(root.get(first) == outer);
    assert(outer.node == first);
    assert(outer.wf(root.num_qubits, root.num_clbits));
    assert(path_of(site).take(path.len() as int) =~= path);
    assert(path_of(site)[path.len() as int] == first);
    assert(inside_of(path, outer.node, site));
    lemma_strung_split(root.ops, at, path, frame, wire);
    lemma_absent_beside(root, at, path, frame, wire, site);
    let left = strung(root.ops.take(at), path, frame, wire);
    let own = strung_of(outer, path, frame, wire);
    let right = strung(root.ops.skip(at + 1), path, frame, wire);
    let read = through(frame, outer.qubits);
    if !met(outer, wire) {
        let w = wire->Some_0;
        assert forall|k: int| 0 <= k < beads.len() implies (#[trigger] beads[k]).stop != Ahead::At(
            site,
        ) by {
            if k < left.len() {
                assert(beads[k] == left[k]);
            } else {
                assert(beads[k] == right[k - left.len()]);
            }
        }
        assert(!read.contains(frame[w as int])) by {
            if read.contains(frame[w as int]) {
                let m = read.index_of(frame[w as int]);
                assert(read[m] == frame[w as int]);
                assert(outer.qubits[m] < root.num_qubits);
                assert(outer.qubits[m] == w);
            }
        }
        lemma_flat_of_within(outer, frame, root.num_qubits, root.num_clbits);
        if scope.len() == 0 {
            lemma_off_qubit(flat_of(inst, down), read, frame[w as int]);
        } else {
            let body = outer.blocks[0];
            lemma_through_apart(frame, root.num_qubits, outer.qubits);
            lemma_frame_at(body, scope.drop_first(), node, read, None);
            let there = scope_of(root, scope)->Ok_0;
            assert(there.ops[there.at(node)].node == node);
            assert(inst.wf(there.num_qubits, there.num_clbits));
            lemma_flat_of_within(inst, down, there.num_qubits, there.num_clbits);
            let on = through(down, inst.qubits);
            assert(!on.contains(frame[w as int])) by {
                if on.contains(frame[w as int]) {
                    let m = on.index_of(frame[w as int]);
                    assert(on[m] == frame[w as int]);
                    assert(inst.qubits[m] < there.num_qubits);
                    assert(read.contains(down[inst.qubits[m] as int]));
                }
            }
            lemma_off_qubit(flat_of(inst, down), on, frame[w as int]);
        }
    } else {
        if scope.len() == 0 {
            assert(path + scope =~= path);
            assert(own[0] == bead);
            assert(beads[left.len() as int] == bead);
        } else {
            let body = outer.blocks[0];
            let here = path.push(first);
            let rest = scope.drop_first();
            assert(here + rest =~= path + scope);
            lemma_through_apart(frame, root.num_qubits, outer.qubits);
            if let Some(w) = wire {
                assert(outer.qubits[outer.qubits.index_of(w)] == w);
                assert(read[outer.local(w) as int] == frame[w as int]);
            }
            lemma_bead_of_site(body, here, rest, node, read, inner_wire(outer, wire));
            if own.contains(bead) {
                let k = own.index_of(bead);
                assert(own[k] == bead);
                assert(beads[left.len() + k] == bead);
            } else {
                assert forall|k: int| 0 <= k < beads.len() implies (#[trigger] beads[k]).stop
                    != Ahead::At(site) by {
                    if k < left.len() {
                        assert(beads[k] == left[k]);
                    } else if k < left.len() + own.len() {
                        assert(beads[k] == own[k - left.len()]);
                    } else {
                        assert(beads[k] == right[k - left.len() - own.len()]);
                    }
                }
            }
        }
    }
}

/// Wires lifted out of a scope are the circuit qubits they were in it.
pub proof fn lemma_lifted_frame(
    circuit: CircuitModel,
    below: Seq<usize>,
    wires: Seq<usize>,
    frame: Seq<usize>,
)
    requires
        lifted(circuit, below, wires) is Ok,
    ensures
        through(frame, lifted(circuit, below, wires)->Ok_0) == through(
            frame_at(circuit, below, frame),
            wires,
        ),
    decreases below.len(),
{
    if below.len() > 0 {
        let inst = circuit.get(below[0]);
        let body = inst.blocks[0];
        let inner = lifted(body, below.drop_first(), wires)->Ok_0;
        lemma_lifted_frame(body, below.drop_first(), wires, through(frame, inst.qubits));
        lemma_through_twice(frame, inst.qubits, inner);
    }
}

/// The frame of a scope below another is its frame as seen from there.
pub proof fn lemma_frame_at_below(
    root: CircuitModel,
    base: Seq<usize>,
    anchor: usize,
    below: Seq<usize>,
    frame: Seq<usize>,
)
    requires
        stands_at(root, base, anchor),
    ensures
        frame_at(root, base + below, frame) == frame_at(
            scope_of(root, base)->Ok_0,
            below,
            frame_at(root, base, frame),
        ),
    decreases base.len(),
{
    if base.len() == 0 {
        assert(base + below =~= below);
    } else {
        let inst = root.get(base[0]);
        assert((base + below)[0] == base[0]);
        assert((base + below).drop_first() =~= base.drop_first() + below);
        lemma_frame_at_below(
            inst.blocks[0],
            base.drop_first(),
            anchor,
            below,
            through(frame, inst.qubits),
        );
    }
}

/// A circuit's own frame tells its wires apart.
pub proof fn lemma_own_apart(count: nat)
    requires
        count <= usize::MAX,
    ensures
        tells_apart(own_qubits(count), count),
        forall|w: usize| w < count ==> own_qubits(count)[w as int] == w,
{
    let frame = own_qubits(count);
    assert forall|i: int, j: int| 0 <= i < frame.len() && 0 <= j < frame.len() && i != j implies frame[i]
        != frame[j] by {
        assert(frame[i] == i && frame[j] == j);
    }
}

/// What a wire passes in a scope it passes in one piece.
pub proof fn lemma_descend(
    root: CircuitModel,
    path: Seq<usize>,
    scope: Seq<usize>,
    anchor: usize,
    frame: Seq<usize>,
    wire: Option<usize>,
    site: SiteModel,
    i: int,
) -> (a: int)
    requires
        root.wf(),
        stands_at(root, scope, anchor),
        path.len() + scope.len() <= site.scope.len(),
        site.scope.take((path.len() + scope.len()) as int) == path + scope,
        0 <= i < strung(root.ops, path, frame, wire).len(),
        strung(root.ops, path, frame, wire)[i].stop == Ahead::At(site),
    ensures
        goes_down(root, scope, wire),
        ({
            let beads = strung(root.ops, path, frame, wire);
            let inner = strung(
                scope_of(root, scope)->Ok_0.ops,
                path + scope,
                frame_at(root, scope, frame),
                wire_at(root, scope, wire),
            );
            0 <= a <= i < a + inner.len() <= beads.len() && beads.subrange(a, a + inner.len())
                == inner
        }),
    decreases scope.len(),
{
    let beads = strung(root.ops, path, frame, wire);
    if scope.len() == 0 {
        assert(path + scope =~= path);
        assert(beads.subrange(0, beads.len() as int) =~= beads);
        0
    } else {
        let at = root.at(scope[0]);
        let inst = root.ops[at];
        assert(root.get(scope[0]) == inst);
        assert(inst.node == scope[0]);
        assert(inst.wf(root.num_qubits, root.num_clbits));
        assert(path_of(site).take(path.len() as int) =~= path) by {
            let n = (path.len() + scope.len()) as int;
            assert forall|k: int| 0 <= k < path.len() implies path_of(site)[k] == path[k] by {
                assert(path_of(site)[k] == site.scope[k]);
                assert(site.scope.take(n)[k] == site.scope[k]);
                assert((path + scope)[k] == path[k]);
            }
        }
        assert(path_of(site)[path.len() as int] == scope[0]) by {
            let n = (path.len() + scope.len()) as int;
            let k = path.len() as int;
            assert(path_of(site)[k] == site.scope[k]);
            assert(site.scope.take(n)[k] == site.scope[k]);
            assert((path + scope)[k] == scope[0]);
        }
        lemma_absent_beside(root, at, path, frame, wire, site);
        lemma_strung_split(root.ops, at, path, frame, wire);
        let left = strung(root.ops.take(at), path, frame, wire);
        let own = strung_of(inst, path, frame, wire);
        let right = strung(root.ops.skip(at + 1), path, frame, wire);
        if i < left.len() {
            assert(beads[i] == left[i]);
        } else if i >= left.len() + own.len() {
            assert(beads[i] == right[i - left.len() - own.len()]);
        }
        let m = i - left.len();
        assert(beads[i] == own[m]);
        assert(met(inst, wire));
        let here = path.push(scope[0]);
        let rest = scope.drop_first();
        assert(here + rest =~= path + scope);
        let b = lemma_descend(
            inst.blocks[0],
            here,
            rest,
            anchor,
            through(frame, inst.qubits),
            inner_wire(inst, wire),
            site,
            m,
        );
        let inner = strung(
            scope_of(root, scope)->Ok_0.ops,
            path + scope,
            frame_at(root, scope, frame),
            wire_at(root, scope, wire),
        );
        let a = left.len() + b;
        assert(own.subrange(b, b + inner.len()) == inner);
        assert(beads.subrange(a, a + inner.len()) =~= own.subrange(b, b + inner.len()));
        a
    }
}

/// A circuit does nothing on qubits it does not have.
pub proof fn lemma_nothing_off_the_circuit(circuit: CircuitModel, qubit: usize)
    requires
        circuit.wf(),
        circuit.num_qubits <= qubit,
    ensures
        on_qubit(steps_of(circuit), qubit) == Seq::<Step>::empty(),
{
    let frame = own_qubits(circuit.num_qubits);
    lemma_flat_within(circuit.ops, frame, circuit.num_qubits, circuit.num_clbits);
    assert(!frame.contains(qubit)) by {
        if frame.contains(qubit) {
            let k = frame.index_of(qubit);
            assert(frame[k] == k as usize);
        }
    }
    lemma_off_qubit(steps_of(circuit), frame, qubit);
}

} // verus!
