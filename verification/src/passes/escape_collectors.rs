//! Collectors leaving their boxes: emission circuit to emission circuit, in place.
//!
//! A collector that is first inside its box on every wire it covers, seen from the collector just outside, is
//! folded into that one: one collector layer fewer per nesting level. This is *not* a contraction: a nested
//! collector covers a subset of its box's qubits, which are a subset of the enclosing collector's, so nothing
//! is ever widened. It is a body transfer plus a deletion, and it runs to a fixed point, since one collector
//! escaping exposes the next level down.
//!
//! An escape refuses on hazards, not on which pass has run. Before absorption every collector body is empty, so
//! an escape is purely structural then: delete a collector, and what it was catching reaches the next.

use vstd::prelude::*;

use crate::beads::absent;
use crate::beads::frame_at;
use crate::beads::joined;
use crate::beads::lemma_bead_of_site;
use crate::beads::lemma_beads_are_the_run;
use crate::beads::lemma_beads_follow_the_wire;
use crate::beads::lemma_beads_of_refill;
use crate::beads::lemma_beads_of_removal;
use crate::beads::lemma_beads_single;
use crate::beads::lemma_descend;
use crate::beads::lemma_frame_at;
use crate::beads::lemma_frame_at_below;
use crate::beads::lemma_frame_kept;
use crate::beads::lemma_joined_add;
use crate::beads::lemma_joined_one;
use crate::beads::lemma_lifted_frame;
use crate::beads::lemma_nothing_off_the_circuit;
use crate::beads::lemma_own_apart;
use crate::beads::lemma_patched_absent;
use crate::beads::lemma_patched_at;
use crate::beads::lemma_stands_at_inside;
use crate::beads::lemma_strung_split;
use crate::beads::patched;
use crate::beads::run_on;
use crate::beads::single;
use crate::beads::strung;
use crate::beads::strung_of;
use crate::beads::tells_apart;
use crate::beads::wire_at;
use crate::beads::Bead;
use crate::circuit::blocks_size;
use crate::circuit::lemma_blocks_size_one;
use crate::circuit::lemma_run_size_take;
use crate::circuit::run_size;
use crate::circuit::wires_below;
use crate::circuit::Circuit;
use crate::circuit::CircuitModel;
use crate::circuit::InstructionModel;
use crate::collections::PathSet;
use crate::emission_circuit::Collect;
use crate::emission_circuit::CollectModel;
use crate::emission_circuit_navigation::along;
use crate::emission_circuit_navigation::append_instruction;
use crate::emission_circuit_navigation::body_of;
use crate::emission_circuit_navigation::collect_box;
use crate::emission_circuit_navigation::collect_op;
use crate::emission_circuit_navigation::collectors;
use crate::emission_circuit_navigation::collects_at;
use crate::emission_circuit_navigation::is_box;
use crate::emission_circuit_navigation::is_collector;
use crate::emission_circuit_navigation::lemma_own_each_once;
use crate::emission_circuit_navigation::lemma_paths_differ;
use crate::emission_circuit_navigation::lemma_rewrite;
use crate::emission_circuit_navigation::lemma_rewrite_elsewhere;
use crate::emission_circuit_navigation::lemma_run_stands;
use crate::emission_circuit_navigation::lemma_scope_of_concat;
use crate::emission_circuit_navigation::lemma_scope_wf;
use crate::emission_circuit_navigation::lemma_stands_at_exists;
use crate::emission_circuit_navigation::lemma_stands_on_exists;
use crate::emission_circuit_navigation::lemma_stands_on_lifts;
use crate::emission_circuit_navigation::lemma_sweep_reports_every_collector;
use crate::emission_circuit_navigation::lemma_swept_wires_run_on;
use crate::emission_circuit_navigation::lemma_with_op;
use crate::emission_circuit_navigation::lemma_without;
use crate::emission_circuit_navigation::lifted;
use crate::emission_circuit_navigation::nested_collectors;
use crate::emission_circuit_navigation::new_dag_body;
use crate::emission_circuit_navigation::next_instruction;
use crate::emission_circuit_navigation::own_collectors;
use crate::emission_circuit_navigation::past;
use crate::emission_circuit_navigation::path_exists;
use crate::emission_circuit_navigation::path_of;
use crate::emission_circuit_navigation::scope_dag;
use crate::emission_circuit_navigation::scope_of;
use crate::emission_circuit_navigation::site_instruction;
use crate::emission_circuit_navigation::sites_model;
use crate::emission_circuit_navigation::stands_at;
use crate::emission_circuit_navigation::stands_on;
use crate::emission_circuit_navigation::subtree_tally;
use crate::emission_circuit_navigation::swept;
use crate::emission_circuit_navigation::through;
use crate::emission_circuit_navigation::with_op;
use crate::emission_circuit_navigation::with_scope;
use crate::emission_circuit_navigation::without;
use crate::emission_circuit_navigation::Ahead;
use crate::emission_circuit_navigation::EmissionTally;
use crate::emission_circuit_navigation::ScopeOrder;
use crate::emission_circuit_navigation::Site;
use crate::emission_circuit_navigation::SiteModel;
use crate::emission_circuit_navigation::WireCursor;
use crate::error::SamplexError;
use crate::flat::flat;
use crate::flat::flat_of;
use crate::flat::lemma_flat_push;
use crate::flat::lemma_on_qubit_add;
use crate::flat::on_qubit;
use crate::flat::own_qubits;
use crate::flat::steps_of;
use crate::flat::Step;
use crate::partition::is_partition;
use crate::partition::total;
use crate::virtual_flow_graph::Direction;

use super::absorb_emissions::at_site;
use super::absorb_emissions::holds_sites;
use super::absorb_emissions::lemma_outlook;
use super::absorb_emissions::lemma_places;
use super::absorb_emissions::lemma_start_fits;
use super::absorb_emissions::lemma_stop;
use super::absorb_emissions::lemma_swept;
use super::absorb_emissions::on_frame;
use super::absorb_emissions::places_in;
use super::absorb_emissions::remap;
use super::absorb_emissions::same_path;
use super::absorb_emissions::Outlook;
use super::lower::holds_steps;
use super::validity::lemma_steps_with;
use super::validity::lemma_valid_at;
use super::validity::lemma_valid_is_equipped;
use super::validity::lemma_valid_refilled;
use super::validity::lemma_valid_rewrite;
use super::validity::lemma_valid_without;
use super::validity::valid;

verus! {

// --- What merging asks of a circuit ------------------------------------------------------------

/// Whether every collector of a circuit names how it synthesizes and partitions exactly the qubits it is on.
pub open spec fn equipped(circuit: CircuitModel) -> bool
    decreases circuit,
{
    forall|i: int| 0 <= i < circuit.ops.len() ==> equipped_at(#[trigger] circuit.ops[i])
}

/// Whether an instruction, if it is a collector, names how it synthesizes and partitions exactly its qubits,
/// and if it is a content box, holds only such collectors.
pub open spec fn equipped_at(inst: InstructionModel) -> bool
    decreases inst,
{
    match inst.op.collect() {
        Some(collect) => {
            &&& collect.parts.len() > 0
            &&& is_partition(collect.partition)
            &&& total(collect.partition) == inst.qubits.len()
        },
        None => inst.op.is_content_box() && inst.blocks.len() == 1 ==> equipped(inst.blocks[0]),
    }
}

proof fn lemma_equipped_at(root: CircuitModel, scope: Seq<usize>, node: usize)
    requires
        root.wf(),
        equipped(root),
        stands_at(root, scope, node),
    ensures
        equipped_at(at_site(root, SiteModel { scope, node })),
        equipped(scope_of(root, scope)->Ok_0),
    decreases scope.len(),
{
    lemma_stands_at_exists(root, scope, node);
    if scope.len() == 0 {
        assert(equipped_at(root.ops[root.at(node)]));
    } else {
        let inst = root.get(scope[0]);
        assert(equipped_at(root.ops[root.at(scope[0])]));
        assert(inst.wf(root.num_qubits, root.num_clbits));
        lemma_equipped_at(inst.blocks[0], scope.drop_first(), node);
    }
}

/// Rewriting one scope of a circuit keeps it equipped if the new scope is.
proof fn lemma_equipped_rewrite(
    root: CircuitModel,
    scope: Seq<usize>,
    node: usize,
    inner: CircuitModel,
)
    requires
        root.wf(),
        equipped(root),
        stands_at(root, scope, node),
        equipped(inner),
    ensures
        equipped(with_scope(root, scope, inner)),
    decreases scope.len(),
{
    if scope.len() > 0 {
        let at = root.at(scope[0]);
        let inst = root.ops[at];
        assert(root.get(scope[0]) == inst);
        assert(equipped_at(inst));
        assert(inst.wf(root.num_qubits, root.num_clbits));
        lemma_equipped_rewrite(inst.blocks[0], scope.drop_first(), node, inner);
        let after = with_scope(root, scope, inner);
        assert forall|i: int| 0 <= i < after.ops.len() implies equipped_at(
            #[trigger] after.ops[i],
        ) by {
            assert(equipped_at(root.ops[i]));
        }
    }
}

// --- How large a circuit is --------------------------------------------------------------------

proof fn lemma_size_of_update(ops: Seq<InstructionModel>, i: int, inst: InstructionModel)
    requires
        0 <= i < ops.len(),
    ensures
        run_size(ops.update(i, inst)) + blocks_size(ops[i].blocks) == run_size(ops) + blocks_size(
            inst.blocks,
        ),
    decreases ops.len(),
{
    let after = ops.update(i, inst);
    if i == ops.len() - 1 {
        assert(after.drop_last() =~= ops.drop_last());
    } else {
        lemma_size_of_update(ops.drop_last(), i, inst);
        assert(after.drop_last() =~= ops.drop_last().update(i, inst));
        assert(after.last() == ops.last());
        assert(ops.drop_last()[i] == ops[i]);
    }
}

pub(crate) proof fn lemma_size_of_removal(ops: Seq<InstructionModel>, i: int)
    requires
        0 <= i < ops.len(),
    ensures
        run_size(ops.remove(i)) + 1 + blocks_size(ops[i].blocks) == run_size(ops),
    decreases ops.len(),
{
    let after = ops.remove(i);
    if i == ops.len() - 1 {
        assert(after =~= ops.drop_last());
    } else {
        lemma_size_of_removal(ops.drop_last(), i);
        assert(after.drop_last() =~= ops.drop_last().remove(i));
        assert(after.last() == ops.last());
        assert(ops.drop_last()[i] == ops[i]);
    }
}

/// A circuit grows by as much as one of its scopes does.
proof fn lemma_size_of_rewrite(
    root: CircuitModel,
    scope: Seq<usize>,
    node: usize,
    inner: CircuitModel,
)
    requires
        root.wf(),
        stands_at(root, scope, node),
    ensures
        run_size(with_scope(root, scope, inner).ops) + run_size(scope_of(root, scope)->Ok_0.ops)
            == run_size(root.ops) + run_size(inner.ops),
        run_size(scope_of(root, scope)->Ok_0.ops) <= run_size(root.ops),
    decreases scope.len(),
{
    if scope.len() > 0 {
        let at = root.at(scope[0]);
        let inst = root.ops[at];
        assert(root.get(scope[0]) == inst);
        assert(inst.wf(root.num_qubits, root.num_clbits));
        let rest = scope.drop_first();
        lemma_stands_at_exists(inst.blocks[0], rest, node);
        lemma_size_of_rewrite(inst.blocks[0], rest, node, inner);
        let changed = InstructionModel {
            blocks: seq![with_scope(inst.blocks[0], rest, inner)],
            ..inst
        };
        lemma_size_of_update(root.ops, at, changed);
        lemma_blocks_size_one(inst.blocks);
        lemma_blocks_size_one(changed.blocks);
        assert(changed.blocks[0] == with_scope(inst.blocks[0], rest, inner));
        lemma_size_of_removal(root.ops, at);
    }
}

// --- Contributions -----------------------------------------------------------------------------

/// A body with a run of instructions appended, one after another, each moved from the wires of the body it
/// came from, read through `wires`, to its place on a frame.
pub open spec fn appended(
    out: CircuitModel,
    run: Seq<InstructionModel>,
    wires: Seq<usize>,
    frame: Seq<usize>,
) -> CircuitModel
    decreases run.len(),
{
    if run.len() == 0 {
        out
    } else {
        let before = appended(out, run.drop_last(), wires, frame);
        before.with(
            next_instruction(
                before,
                run.last().op,
                run.last().params,
                Seq::empty(),
                places_in(frame, through(wires, run.last().qubits)),
                Seq::empty(),
            ),
        )
    }
}

/// A body with what a collector holds appended, if it holds anything.
pub open spec fn contributed(
    out: CircuitModel,
    contribution: Option<CircuitModel>,
    wires: Seq<usize>,
    frame: Seq<usize>,
) -> CircuitModel {
    match contribution {
        Some(body) => appended(out, body.ops, wires, frame),
        None => out,
    }
}

/// Whether a body is on as many wires as a frame has, and can take more instructions.
pub open spec fn open_body(body: CircuitModel, frame: Seq<usize>, num_clbits: nat) -> bool {
    &&& body.wf()
    &&& body.fresh()
    &&& body.num_qubits == frame.len()
    &&& body.num_clbits == num_clbits
}

proof fn lemma_through_frame(frame: Seq<usize>, wires: Seq<usize>, qubits: Seq<usize>)
    requires
        on_frame(frame, wires),
        frame.len() <= usize::MAX,
        wires_below(qubits, wires.len()),
    ensures
        on_frame(frame, through(wires, qubits)),
        through(wires, qubits).len() == qubits.len(),
{
    let said = through(wires, qubits);
    assert forall|k: int| 0 <= k < said.len() implies frame.contains(#[trigger] said[k]) by {
        assert(frame.contains(wires[qubits[k] as int]));
    }
    assert forall|i: int, j: int| 0 <= i < said.len() && 0 <= j < said.len() && i != j implies said[i]
        != said[j] by {
        assert(qubits[i] != qubits[j]);
        assert(wires[qubits[i] as int] != wires[qubits[j] as int]);
    }
}

/// A body stays well formed when a run is appended, and grows by it.
proof fn lemma_appended(
    out: CircuitModel,
    run: Seq<InstructionModel>,
    width: nat,
    clbits: nat,
    wires: Seq<usize>,
    frame: Seq<usize>,
    num_clbits: nat,
)
    requires
        open_body(out, frame, num_clbits),
        frame.len() <= usize::MAX,
        on_frame(frame, wires),
        wires.len() == width,
        forall|i: int| 0 <= i < run.len() ==> (#[trigger] run[i]).wf(width, clbits),
        out.ops.len() + run.len() <= usize::MAX,
    ensures
        open_body(appended(out, run, wires, frame), frame, num_clbits),
        appended(out, run, wires, frame).ops.len() == out.ops.len() + run.len(),
        run_size(appended(out, run, wires, frame).ops) == run_size(out.ops) + run.len(),
    decreases run.len(),
{
    if run.len() > 0 {
        let front = run.drop_last();
        let inst = run.last();
        assert(run[run.len() - 1] == inst);
        assert forall|i: int| 0 <= i < front.len() implies (#[trigger] front[i]).wf(width, clbits) by {
            assert(run[i] == front[i]);
        }
        lemma_appended(out, front, width, clbits, wires, frame, num_clbits);
        let before = appended(out, front, wires, frame);
        let after = appended(out, run, wires, frame);
        assert(inst.wf(width, clbits));
        lemma_through_frame(frame, wires, inst.qubits);
        lemma_places(frame, through(wires, inst.qubits));
        assert(after.ops.drop_last() =~= before.ops);
        assert(blocks_size(after.ops.last().blocks) == 0);
    }
}

/// Append one collector's body to a merged body, moving its wires onto `frame`.
///
/// `wires` maps the contribution's own wires into the frame `frame` is expressed in: a sibling's own qubits,
/// or an escaped collector's lifted out through the boxes between. In written order: a collector body is a
/// *sequence*.
pub(crate) fn append_contribution(
    out: &mut Circuit,
    contribution: &Circuit,
    wires: &Vec<usize>,
    frame: &Vec<usize>,
    Ghost(num_clbits): Ghost<nat>,
)
    requires
        open_body(old(out)@, frame@, num_clbits),
        contribution@.wf(),
        contribution@.num_qubits == wires@.len(),
        on_frame(frame@, wires@),
        frame@.no_duplicates(),
    ensures
        final(out)@ == appended(old(out)@, contribution@.ops, wires@, frame@),
        open_body(final(out)@, frame@, num_clbits),
{
    let ghost before = out@;
    let ghost run = contribution@.ops;
    let width: usize = frame.len();
    assert(run.take(0) =~= Seq::<InstructionModel>::empty());
    let none: Vec<usize> = Vec::new();
    assert(none@ =~= Seq::<usize>::empty());
    let mut i: usize = 0;
    while i < contribution.ops.len()
        invariant
            i <= contribution.ops.len(),
            run == contribution@.ops,
            contribution@.wf(),
            contribution@.num_qubits == wires@.len(),
            on_frame(frame@, wires@),
            frame@.no_duplicates(),
            frame@.len() <= usize::MAX,
            none@ == Seq::<usize>::empty(),
            out@ == appended(before, run.take(i as int), wires@, frame@),
            open_body(out@, frame@, num_clbits),
        decreases contribution.ops.len() - i,
    {
        let gate = &contribution.ops[i];
        proof {
            assert(run.take(i + 1).drop_last() =~= run.take(i as int));
            assert(run.take(i + 1).last() == gate@);
            assert(run[i as int] == gate@);
            assert(gate@.wf(contribution@.num_qubits, contribution@.num_clbits));
            lemma_through_frame(frame@, wires@, gate@.qubits);
            lemma_places(frame@, through(wires@, gate@.qubits));
            assert(wires_below(none@, num_clbits));
        }
        let read = read_through(wires, &gate.qubits);
        let qargs = remap(frame, &read);
        append_instruction(out, gate, qargs.as_slice(), none.as_slice());
        i += 1;
    }
    assert(run.take(i as int) =~= run);
}

/// Wires read through others: the wire at each index.
pub(crate) fn read_through(wires: &Vec<usize>, indices: &Vec<usize>) -> (read: Vec<usize>)
    requires
        wires_below(indices@, wires@.len()),
    ensures
        read@ == through(wires@, indices@),
{
    let mut read: Vec<usize> = Vec::new();
    let mut i: usize = 0;
    while i < indices.len()
        invariant
            i <= indices.len(),
            wires_below(indices@, wires@.len()),
            read@ == through(wires@, indices@).take(i as int),
        decreases indices.len() - i,
    {
        read.push(wires[indices[i]]);
        assert(read@ =~= through(wires@, indices@).take(i + 1));
        i += 1;
    }
    assert(through(wires@, indices@).take(i as int) =~= through(wires@, indices@));
    read
}

// --- Escape: a collector leaving its box -------------------------------------------------------

/// Whether an escape's two hazards are clear, given how many emissions arrive and whether content moves.
pub open spec fn clear_of_hazards(arriving: nat, moves_content: bool) -> bool {
    arriving == 0 || (arriving == 1 && !moves_content)
}

/// Whether an escape's two hazards are clear, given what the inner collector's box holds.
///
/// `arriving` is a tally of the box the escaping collector is leaving, and `outward` the way an emission has
/// to travel to end up at the collector being folded into; every one of those does end up there after the
/// transfer, since the collector that was catching them is gone. `moves_content` says whether the escaping
/// collector has a body to take with it.
///
/// - Content plus even one arriving emission refuses: the content being moved sits on that emission's path,
///   crossed today and composed inside its target afterwards.
/// - Two arriving refuses whether anything moves or not: both would reach the same collector from the same
///   side, and which composes nearer its edge is left open.
pub fn hazards_clear(arriving: &EmissionTally, outward: Direction, moves_content: bool) -> (clear: bool)
    ensures
        clear == clear_of_hazards(arriving@.bound(outward), moves_content),
{
    let count = arriving.towards(outward);
    if count > 0 && moves_content {
        return false;
    }
    count <= 1
}

/// What a collector looks out on one way.
pub open spec fn view_from(root: CircuitModel, site: SiteModel, direction: Direction) -> Outlook {
    Outlook { root, site, qubits: at_site(root, site).qubits, direction, claimed: Set::empty() }
}

/// The first site one of a collector's wires reaches, descending into boxes but not into collectors.
pub open spec fn first_stop(look: Outlook, wire: usize) -> Result<Option<SiteModel>, SamplexError> {
    if look.front(wire).len() == 0 {
        Ok(None)
    } else {
        match look.front(wire)[0] {
            Ahead::Broken(error) => Err(error),
            Ahead::At(site) => Ok(Some(site)),
        }
    }
}

/// The distinct collectors inside boxes that the first few of a collector's wires reach first.
pub open spec fn inner_candidates(look: Outlook, count: nat) -> Result<Seq<SiteModel>, SamplexError>
    decreases count,
{
    if count == 0 {
        Ok(Seq::empty())
    } else {
        match inner_candidates(look, (count - 1) as nat) {
            Err(error) => Err(error),
            Ok(found) => match first_stop(look, look.qubits[count - 1]) {
                Err(error) => Err(error),
                Ok(None) => Ok(found),
                Ok(Some(site)) => if look.inside(site) && at_site(look.root, site).op.is_collector()
                    && !found.contains(site) {
                    Ok(found.push(site))
                } else {
                    Ok(found)
                },
            },
        }
    }
}

/// Whether a nested collector synthesizes in every part as an outer one does.
pub open spec fn synthesize_alike(outer: CollectModel, inner: CollectModel) -> bool {
    outer.all_synthesize(outer.parts[0].synthesizer) && inner.all_synthesize(
        outer.parts[0].synthesizer,
    )
}

/// Whether a nested collector covers only wires of the outer one, and is the first thing on each of them.
pub open spec fn adjacent(look: Outlook, inner: SiteModel) -> bool {
    &&& forall|k: int|
        0 <= k < look.wires(inner).len() ==> look.qubits.contains(#[trigger] look.wires(inner)[k])
    &&& forall|k: int|
        0 <= k < look.wires(inner).len() ==> first_stop(look, #[trigger] look.wires(inner)[k])
            == Ok::<Option<SiteModel>, SamplexError>(Some(inner))
}

/// Whether a collector holds anything.
pub open spec fn holds_content(body: Option<CircuitModel>) -> bool {
    body matches Some(circuit) && circuit.ops.len() > 0
}

/// Whether a nested collector may leave its box and fold into the outer one.
pub open spec fn may_escape(look: Outlook, inner: SiteModel) -> Result<bool, SamplexError> {
    let outer = at_site(look.root, look.site).op.collect()->Some_0;
    if !synthesize_alike(outer, at_site(look.root, inner).op.collect()->Some_0) || !adjacent(
        look,
        inner,
    ) {
        Ok(false)
    } else {
        match subtree_tally(scope_of(look.root, inner.scope)->Ok_0.ops) {
            Err(error) => Err(error),
            Ok(tally) => match body_of(at_site(look.root, inner)) {
                Err(error) => Err(error),
                Ok(body) => Ok(
                    clear_of_hazards(tally.bound(look.facing()), holds_content(body)),
                ),
            },
        }
    }
}

/// The first of some nested collectors that may fold into the outer one.
pub open spec fn first_escaping(look: Outlook, candidates: Seq<SiteModel>) -> Result<
    Option<SiteModel>,
    SamplexError,
>
    decreases candidates.len(),
{
    if candidates.len() == 0 {
        Ok(None)
    } else {
        match may_escape(look, candidates[0]) {
            Err(error) => Err(error),
            Ok(true) => Ok(Some(candidates[0])),
            Ok(false) => first_escaping(look, candidates.drop_first()),
        }
    }
}

/// The collector that may leave its box and fold into the outer one, if any.
pub open spec fn escaping(look: Outlook) -> Result<Option<SiteModel>, SamplexError> {
    match inner_candidates(look, look.qubits.len()) {
        Err(error) => Err(error),
        Ok(candidates) => first_escaping(look, candidates),
    }
}

/// Every candidate is a nested collector, and every wire looked along reaches something or nothing.
proof fn lemma_candidates(look: Outlook, count: nat)
    requires
        look.wf(),
        count <= look.qubits.len(),
        inner_candidates(look, count) is Ok,
    ensures
        forall|w: int|
            0 <= w < count ==> first_stop(look, #[trigger] look.qubits[w]) is Ok,
        forall|k: int|
            0 <= k < inner_candidates(look, count)->Ok_0.len() ==> nested_collector(
                look,
                #[trigger] inner_candidates(look, count)->Ok_0[k],
            ),
    decreases count,
{
    if count > 0 {
        lemma_candidates(look, (count - 1) as nat);
        lemma_start_fits(look);
        let wire = look.qubits[count - 1];
        let front = look.front(wire);
        if front.len() > 0 && front[0] is At {
            assert(look.start().fronts[count - 1] == front);
            lemma_stop(look, wire, front, 0);
            lemma_outlook(look);
            let site = front[0]->At_0;
            let below = site.scope.skip(look.site.scope.len() as int);
            assert(stands_on(look.scope(), below, site.node, wire));
            lemma_stands_on_exists(look.scope(), below, site.node, wire);
        }
    }
}

/// What is known of a nested collector a wire reaches.
spec fn nested_collector(look: Outlook, site: SiteModel) -> bool {
    let below = site.scope.skip(look.site.scope.len() as int);
    &&& look.inside(site)
    &&& at_site(look.root, site).op.is_collector()
    &&& stands_at(look.root, site.scope, site.node)
    &&& site.scope.take(look.site.scope.len() as int) == look.site.scope
    &&& lifted(
        look.scope(),
        below,
        at_site(look.root, site).qubits,
    ) == Ok::<Seq<usize>, SamplexError>(look.wires(site))
    &&& wires_below(look.wires(site), look.scope().num_qubits)
    &&& look.wires(site).len() == at_site(look.root, site).qubits.len()
    &&& path_exists(look.scope(), below)
}

fn same_site(left: &Site, right: &Site) -> (same: bool)
    ensures
        same == (left@ == right@),
{
    left.node == right.node && same_path(&left.scope, &right.scope)
}

/// The first site one of a collector's wires reaches.
fn first_site(root: &Circuit, from: &Site, wire: usize, direction: Direction) -> (result: Result<
    Option<Site>,
    SamplexError,
>)
    requires
        root@.wf(),
        stands_at(root@, from@.scope, from@.node),
    ensures
        match first_stop(view_from(root@, from@, direction), wire) {
            Err(error) => result matches Err(reported) && reported == error,
            Ok(None) => result matches Ok(None),
            Ok(Some(said)) => result matches Ok(Some(site)) && site@ == said,
        },
{
    proof {
        lemma_stands_at_exists(root@, from@.scope, from@.node);
    }
    let mut cursor = WireCursor::at(from, wire);
    cursor.advance(root, direction)
}

proof fn lemma_first_escaping_skips(look: Outlook, candidates: Seq<SiteModel>, k: int)
    requires
        0 <= k <= candidates.len(),
        forall|j: int|
            0 <= j < k ==> may_escape(look, #[trigger] candidates[j]) == Ok::<bool, SamplexError>(
                false,
            ),
    ensures
        first_escaping(look, candidates) == first_escaping(look, candidates.skip(k)),
    decreases k,
{
    if k == 0 {
        assert(candidates.skip(0) =~= candidates);
    } else {
        let rest = candidates.drop_first();
        assert forall|j: int| 0 <= j < k - 1 implies may_escape(look, #[trigger] rest[j]) == Ok::<
            bool,
            SamplexError,
        >(false) by {
            assert(rest[j] == candidates[j + 1]);
        }
        assert(may_escape(look, candidates[0]) == Ok::<bool, SamplexError>(false));
        lemma_first_escaping_skips(look, rest, k - 1);
        assert(rest.skip(k - 1) =~= candidates.skip(k));
    }
}

/// Whether a nested collector may fold into the outer one, on the wires it covers there if so.
fn judge(
    root: &Circuit,
    outer: &Site,
    spec: &Collect,
    wires: &Vec<usize>,
    direction: Direction,
    inner: &Site,
) -> (result: Result<Option<Vec<usize>>, SamplexError>)
    requires
        root@.wf(),
        equipped(root@),
        run_size(root@.ops) <= usize::MAX,
        stands_at(root@, outer@.scope, outer@.node),
        at_site(root@, outer@).op.collect() == Some(spec@),
        wires@ == at_site(root@, outer@).qubits,
        inner_candidates(view_from(root@, outer@, direction), wires@.len()) is Ok,
        nested_collector(view_from(root@, outer@, direction), inner@),
    ensures
        match may_escape(view_from(root@, outer@, direction), inner@) {
            Err(error) => result matches Err(reported) && reported == error,
            Ok(true) => result matches Ok(Some(covered)) && covered@ == view_from(
                root@,
                outer@,
                direction,
            ).wires(inner@),
            Ok(false) => result matches Ok(None),
        },
{
    let ghost look = view_from(root@, outer@, direction);
    proof {
        lemma_outlook(look);
        lemma_candidates(look, wires@.len());
        lemma_stands_at_exists(root@, inner@.scope, inner@.node);
        lemma_equipped_at(root@, outer@.scope, outer@.node);
        lemma_size_of_rewrite(
            root@,
            inner@.scope,
            inner@.node,
            scope_of(root@, inner@.scope)->Ok_0,
        );
    }
    let inner_spec = match inner.collector(root)? {
        Some(inner_spec) => inner_spec,
        None => {
            return Ok(None);
        },
    };
    let synthesizer = spec.synthesizer();
    if !spec.synthesizes_all(synthesizer) || !inner_spec.synthesizes_all(synthesizer) {
        return Ok(None);
    }
    let covered = inner.qubits_in(root, outer.scope.as_slice())?;
    let mut k: usize = 0;
    while k < covered.len()
        invariant
            k <= covered.len(),
            root@.wf(),
            stands_at(root@, outer@.scope, outer@.node),
            look == view_from(root@, outer@, direction),
            wires@ == look.qubits,
            covered@ == look.wires(inner@),
            may_escape(look, inner@) == Ok::<bool, SamplexError>(false) || synthesize_alike(
                at_site(root@, outer@).op.collect()->Some_0,
                at_site(root@, inner@).op.collect()->Some_0,
            ),
            forall|w: int|
                0 <= w < wires@.len() ==> first_stop(look, #[trigger] look.qubits[w]) is Ok,
            forall|j: int|
                0 <= j < k ==> look.qubits.contains(#[trigger] look.wires(inner@)[j])
                    && first_stop(look, look.wires(inner@)[j]) == Ok::<
                    Option<SiteModel>,
                    SamplexError,
                >(Some(inner@)),
        decreases covered.len() - k,
    {
        let wire = covered[k];
        assert(look.wires(inner@)[k as int] == wire);
        if !lists(wires, wire) {
            return Ok(None);
        }
        assert(look.qubits[look.qubits.index_of(wire)] == wire);
        match first_site(root, outer, wire, direction)? {
            Some(site) => {
                if !same_site(&site, inner) {
                    return Ok(None);
                }
            },
            None => {
                return Ok(None);
            },
        }
        k += 1;
    }
    let dag = scope_dag(root, inner.scope.as_slice())?;
    let arriving = EmissionTally::subtree(dag)?;
    let moves_content = match inner.body(root)? {
        Some(body) => body.ops.len() > 0,
        None => false,
    };
    if hazards_clear(&arriving, direction.opposite(), moves_content) {
        Ok(Some(covered))
    } else {
        Ok(None)
    }
}

/// Whether a wire is one of some.
pub(crate) fn lists(wires: &Vec<usize>, wire: usize) -> (yes: bool)
    ensures
        yes == wires@.contains(wire),
{
    let mut i: usize = 0;
    while i < wires.len()
        invariant
            i <= wires.len(),
            forall|j: int| 0 <= j < i ==> wires@[j] != wire,
        decreases wires.len() - i,
    {
        if wires[i] == wire {
            assert(wires@[i as int] == wire);
            return true;
        }
        i += 1;
    }
    false
}

/// The collector that may leave its box and fold into `outer`, walking `direction`, if any, with the wires it
/// covers in the outer one's scope.
fn escapable(root: &Circuit, outer: &Site, direction: Direction) -> (result: Result<
    Option<(Site, Vec<usize>)>,
    SamplexError,
>)
    requires
        root@.wf(),
        equipped(root@),
        run_size(root@.ops) <= usize::MAX,
        stands_at(root@, outer@.scope, outer@.node),
        at_site(root@, outer@).op.is_collector(),
    ensures
        match escaping(view_from(root@, outer@, direction)) {
            Err(error) => result matches Err(reported) && reported == error,
            Ok(None) => result matches Ok(None),
            Ok(Some(said)) => result matches Ok(Some((inner, covered))) && inner@ == said
                && covered@ == view_from(root@, outer@, direction).wires(said),
        },
{
    let ghost look = view_from(root@, outer@, direction);
    proof {
        lemma_outlook(look);
    }
    let spec = match outer.collector(root)? {
        Some(spec) => spec,
        None => {
            return Ok(None);
        },
    };
    let wires = outer.qubits(root)?;
    let mut candidates: Vec<Site> = Vec::new();
    assert(sites_model(candidates@) =~= Seq::<SiteModel>::empty());
    let mut w: usize = 0;
    while w < wires.len()
        invariant
            w <= wires.len(),
            root@.wf(),
            stands_at(root@, outer@.scope, outer@.node),
            look == view_from(root@, outer@, direction),
            wires@ == look.qubits,
            inner_candidates(look, w as nat) == Ok::<Seq<SiteModel>, SamplexError>(
                sites_model(candidates@),
            ),
        decreases wires.len() - w,
    {
        let ghost found = sites_model(candidates@);
        match first_site(root, outer, wires[w], direction) {
            Err(error) => {
                proof {
                    lemma_candidates_stop(look, (w + 1) as nat, look.qubits.len());
                }
                return Err(error);
            },
            Ok(None) => {},
            Ok(Some(site)) => {
                proof {
                    lemma_start_fits(look);
                    let front = look.front(look.qubits[w as int]);
                    assert(look.start().fronts[w as int] == front);
                    lemma_stop(look, look.qubits[w as int], front, 0);
                }
                let deeper = site.deeper_than(outer.scope.as_slice());
                let collecting = match site.collector(root) {
                    Ok(collect) => collect.is_some(),
                    Err(_) => false,
                };
                if deeper && collecting && !holds_site(&candidates, &site) {
                    candidates.push(site);
                    assert(sites_model(candidates@) =~= found.push(site@));
                }
            },
        }
        w += 1;
    }
    let ghost model = sites_model(candidates@);
    proof {
        lemma_candidates(look, look.qubits.len());
    }
    let mut k: usize = 0;
    while k < candidates.len()
        invariant
            k <= candidates.len(),
            root@.wf(),
            equipped(root@),
            run_size(root@.ops) <= usize::MAX,
            stands_at(root@, outer@.scope, outer@.node),
            at_site(root@, outer@).op.collect() == Some(spec@),
            look == view_from(root@, outer@, direction),
            wires@ == look.qubits,
            model == sites_model(candidates@),
            inner_candidates(look, look.qubits.len()) == Ok::<Seq<SiteModel>, SamplexError>(model),
            forall|j: int| 0 <= j < model.len() ==> nested_collector(look, #[trigger] model[j]),
            forall|j: int|
                0 <= j < k ==> may_escape(look, #[trigger] model[j]) == Ok::<bool, SamplexError>(
                    false,
                ),
        decreases candidates.len() - k,
    {
        proof {
            assert(model[k as int] == candidates@[k as int]@);
            lemma_first_escaping_skips(look, model, k as int);
            assert(model.skip(k as int)[0] == model[k as int]);
        }
        match judge(root, outer, &spec, &wires, direction, &candidates[k]) {
            Err(error) => {
                return Err(error);
            },
            Ok(Some(covered)) => {
                return Ok(Some((candidates[k].clone(), covered)));
            },
            Ok(None) => {},
        }
        k += 1;
    }
    proof {
        lemma_first_escaping_skips(look, model, k as int);
        assert(model.skip(k as int) =~= Seq::<SiteModel>::empty());
    }
    Ok(None)
}

proof fn lemma_candidates_stop(look: Outlook, few: nat, many: nat)
    requires
        few <= many,
        inner_candidates(look, few) is Err,
    ensures
        inner_candidates(look, many) == inner_candidates(look, few),
    decreases many - few,
{
    if few < many {
        lemma_candidates_stop(look, few, (many - 1) as nat);
    }
}

/// Whether a site is one of some.
fn holds_site(sites: &Vec<Site>, site: &Site) -> (yes: bool)
    ensures
        yes == sites_model(sites@).contains(site@),
{
    let mut i: usize = 0;
    while i < sites.len()
        invariant
            i <= sites.len(),
            forall|j: int| 0 <= j < i ==> #[trigger] sites_model(sites@)[j] != site@,
        decreases sites.len() - i,
    {
        assert(sites_model(sites@)[i as int] == sites@[i as int]@);
        if same_site(&sites[i], site) {
            return true;
        }
        i += 1;
    }
    false
}

/// One collector folding into the collector just outside its box.
#[verifier::ext_equal]
pub struct EscapeModel {
    /// The collector that stays, and gains a body.
    pub outer: SiteModel,
    /// The collector that goes.
    pub inner: SiteModel,
    /// The wires of the one that goes, in the frame of the scope of the one that stays.
    pub wires: Seq<usize>,
    /// Which way the outer collector had to look to reach the inner one.
    pub direction: Direction,
}

struct Escape {
    outer: Site,
    inner: Site,
    wires: Vec<usize>,
    direction: Direction,
}

impl View for Escape {
    type V = EscapeModel;

    closed spec fn view(&self) -> EscapeModel {
        EscapeModel {
            outer: self.outer@,
            inner: self.inner@,
            wires: self.wires@,
            direction: self.direction,
        }
    }
}

spec fn escapes_model(plans: Seq<Escape>) -> Seq<EscapeModel> {
    plans.map_values(|plan: Escape| plan@)
}

/// Whether a collector takes part in an escape, in either role.
pub open spec fn takes_part(plans: Seq<EscapeModel>, site: SiteModel) -> bool {
    exists|p: int|
        0 <= p < plans.len() && ((#[trigger] plans[p]).outer == site || plans[p].inner == site)
}

/// The escape a collector offers on one side, unless the nested collector takes part in another already.
pub open spec fn offer(
    root: CircuitModel,
    outer: SiteModel,
    direction: Direction,
    plans: Seq<EscapeModel>,
) -> Result<Option<EscapeModel>, SamplexError> {
    let look = view_from(root, outer, direction);
    match escaping(look) {
        Err(error) => Err(error),
        Ok(None) => Ok(None),
        Ok(Some(inner)) => if takes_part(plans, inner) {
            Ok(None)
        } else {
            Ok(Some(EscapeModel { outer, inner, wires: look.wires(inner), direction }))
        },
    }
}

/// Every escape available to some collectors: each judged before those after it, to its left before to its
/// right, and each taking part in at most one, in either role.
pub open spec fn escapes_for(root: CircuitModel, sites: Seq<SiteModel>) -> Result<
    Seq<EscapeModel>,
    SamplexError,
>
    decreases sites.len(),
{
    if sites.len() == 0 {
        Ok(Seq::empty())
    } else {
        match escapes_for(root, sites.drop_last()) {
            Err(error) => Err(error),
            Ok(plans) => if takes_part(plans, sites.last()) {
                Ok(plans)
            } else {
                match offer(root, sites.last(), Direction::Left, plans) {
                    Err(error) => Err(error),
                    Ok(Some(plan)) => Ok(plans.push(plan)),
                    Ok(None) => match offer(root, sites.last(), Direction::Right, plans) {
                        Err(error) => Err(error),
                        Ok(Some(plan)) => Ok(plans.push(plan)),
                        Ok(None) => Ok(plans),
                    },
                }
            },
        }
    }
}

/// Every escape available in a circuit as it stands: a collector is judged before those nested below it, so a
/// nest resolves from the outside in.
pub open spec fn available_escapes(root: CircuitModel) -> Result<Seq<EscapeModel>, SamplexError> {
    match swept(root, Seq::empty(), ScopeOrder::Outermost) {
        Err(error) => Err(error),
        Ok(sites) => escapes_for(root, sites),
    }
}

/// What holds of a planned escape: both collectors are there and differ, the one that goes is inside a box,
/// covers wires of the one that stays, and has at most one body.
spec fn plan_sound(root: CircuitModel, plan: EscapeModel) -> bool {
    &&& stands_at(root, plan.outer.scope, plan.outer.node)
    &&& at_site(root, plan.outer).op.is_collector()
    &&& stands_at(root, plan.inner.scope, plan.inner.node)
    &&& at_site(root, plan.inner).op.is_collector()
    &&& plan.outer != plan.inner
    &&& plan.inner.scope.len() > 0
    &&& on_frame(at_site(root, plan.outer).qubits, plan.wires)
    &&& plan.wires.len() == at_site(root, plan.inner).qubits.len()
    &&& body_of(at_site(root, plan.inner)) is Ok
}

/// Whether no collector takes part in two escapes.
spec fn apart(plans: Seq<EscapeModel>) -> bool {
    forall|p: int, q: int|
        0 <= p < q < plans.len() ==> {
            let one = #[trigger] plans[p];
            let other = #[trigger] plans[q];
            one.outer != other.outer && one.outer != other.inner && one.inner != other.outer
                && one.inner != other.inner
        }
}

proof fn lemma_offer(
    root: CircuitModel,
    outer: SiteModel,
    direction: Direction,
    plans: Seq<EscapeModel>,
)
    requires
        root.wf(),
        stands_at(root, outer.scope, outer.node),
        at_site(root, outer).op.is_collector(),
    ensures
        offer(root, outer, direction, plans) matches Ok(Some(plan)) ==> plan_sound(root, plan)
            && plan.outer == outer && !takes_part(plans, plan.inner) && plan_close(root, plan),
{
    let look = view_from(root, outer, direction);
    lemma_outlook(look);
    if let Ok(Some(plan)) = offer(root, outer, direction, plans) {
        let candidates = inner_candidates(look, look.qubits.len())->Ok_0;
        lemma_candidates(look, look.qubits.len());
        lemma_first_escaping_is_a_candidate(look, candidates);
        let inner = plan.inner;
        let k = candidates.index_of(inner);
        assert(candidates[k] == inner);
        assert(nested_collector(look, candidates[k]));
        assert(adjacent(look, inner));
    }
}

proof fn lemma_first_escaping_is_a_candidate(look: Outlook, candidates: Seq<SiteModel>)
    ensures
        first_escaping(look, candidates) matches Ok(Some(inner)) ==> candidates.contains(inner)
            && may_escape(look, inner) == Ok::<bool, SamplexError>(true),
    decreases candidates.len(),
{
    if candidates.len() > 0 {
        let rest = candidates.drop_first();
        lemma_first_escaping_is_a_candidate(look, rest);
        if let Ok(Some(inner)) = first_escaping(look, candidates) {
            if may_escape(look, candidates[0]) == Ok::<bool, SamplexError>(true) {
                assert(candidates[0] == inner);
            } else {
                let k = rest.index_of(inner);
                assert(rest[k] == inner);
                assert(candidates[k + 1] == inner);
            }
        }
    }
}

proof fn lemma_escapes_sound(root: CircuitModel, sites: Seq<SiteModel>)
    requires
        root.wf(),
        forall|k: int|
            0 <= k < sites.len() ==> stands_at(root, (#[trigger] sites[k]).scope, sites[k].node)
                && at_site(root, sites[k]).op.is_collector(),
        escapes_for(root, sites) is Ok,
    ensures
        apart(escapes_for(root, sites)->Ok_0),
        forall|p: int|
            0 <= p < escapes_for(root, sites)->Ok_0.len() ==> plan_sound(
                root,
                #[trigger] escapes_for(root, sites)->Ok_0[p],
            ),
        escapes_for(root, sites)->Ok_0.len() <= sites.len(),
    decreases sites.len(),
{
    if sites.len() > 0 {
        let front = sites.drop_last();
        assert forall|k: int| 0 <= k < front.len() implies stands_at(
            root,
            (#[trigger] front[k]).scope,
            front[k].node,
        ) && at_site(root, front[k]).op.is_collector() by {
            assert(sites[k] == front[k]);
        }
        lemma_escapes_sound(root, front);
        let plans = escapes_for(root, front)->Ok_0;
        let outer = sites.last();
        assert(sites[sites.len() - 1] == outer);
        lemma_offer(root, outer, Direction::Left, plans);
        lemma_offer(root, outer, Direction::Right, plans);
        let after = escapes_for(root, sites)->Ok_0;
        if after != plans {
            let plan = after.last();
            assert(after == plans.push(plan));
            assert forall|p: int, q: int| 0 <= p < q < after.len() implies {
                let one = #[trigger] after[p];
                let other = #[trigger] after[q];
                one.outer != other.outer && one.outer != other.inner && one.inner != other.outer
                    && one.inner != other.inner
            } by {
                assert(after[p] == plans[p]);
                if q < plans.len() {
                    assert(after[q] == plans[q]);
                } else {
                    assert(after[q] == plan);
                    assert(!takes_part(plans, plan.inner));
                    assert(!takes_part(plans, plan.outer));
                }
            }
        }
    }
}

proof fn lemma_escapes_stop(root: CircuitModel, sites: Seq<SiteModel>, k: int)
    requires
        0 <= k <= sites.len(),
        escapes_for(root, sites.take(k)) is Err,
    ensures
        escapes_for(root, sites) == escapes_for(root, sites.take(k)),
    decreases sites.len() - k,
{
    if k == sites.len() {
        assert(sites.take(k) =~= sites);
    } else {
        assert(sites.take(k + 1).drop_last() =~= sites.take(k));
        lemma_escapes_stop(root, sites, k + 1);
    }
}

/// The sites that take part in escapes.
spec fn parties(plans: Seq<EscapeModel>) -> Set<SiteModel> {
    Set::new(|site: SiteModel| takes_part(plans, site))
}

proof fn lemma_parties_push(plans: Seq<EscapeModel>, plan: EscapeModel)
    ensures
        parties(plans.push(plan)) == parties(plans).insert(plan.outer).insert(plan.inner),
{
    let after = plans.push(plan);
    assert forall|site: SiteModel| #[trigger] takes_part(after, site) <==> (takes_part(plans, site)
        || site == plan.outer || site == plan.inner) by {
        assert(after[plans.len() as int] == plan);
        if takes_part(plans, site) {
            let p = choose|p: int|
                0 <= p < plans.len() && ((#[trigger] plans[p]).outer == site || plans[p].inner
                    == site);
            assert(after[p] == plans[p]);
        }
        if takes_part(after, site) {
            let p = choose|p: int|
                0 <= p < after.len() && ((#[trigger] after[p]).outer == site || after[p].inner
                    == site);
            if p < plans.len() {
                assert(after[p] == plans[p]);
            }
        }
    }
    assert(parties(after) =~= parties(plans).insert(plan.outer).insert(plan.inner));
}

/// Note that a site is taken.
fn claim(claimed: &mut PathSet, site: &Site, Ghost(claims): Ghost<Set<SiteModel>>)
    requires
        holds_sites(old(claimed)@, claims),
    ensures
        holds_sites(final(claimed)@, claims.insert(site@)),
{
    let ghost known = claimed@;
    claimed.insert(site.path());
    proof {
        assert forall|other: SiteModel| #[trigger] claimed@.contains(path_of(other))
            <==> claims.insert(site@).contains(other) by {
            lemma_paths_differ(other, site@);
            assert(known.contains(path_of(other)) <==> claims.contains(other));
        }
    }
}

/// Find every escape available in the circuit as it stands.
///
/// A collector takes part in at most one escape per round, in either role: a middle collector in a two-level
/// nest is both somebody's `inner` and somebody else's `outer`, and doing both at once would rewrite what this
/// round also deletes. The fixed-point loop picks up the rest.
fn plan_escapes(root: &Circuit) -> (result: Result<Vec<Escape>, SamplexError>)
    requires
        root@.wf(),
        equipped(root@),
        run_size(root@.ops) <= usize::MAX,
    ensures
        match available_escapes(root@) {
            Err(error) => result matches Err(reported) && reported == error,
            Ok(said) => result matches Ok(plans) && escapes_model(plans@) == said && apart(said)
                && forall|p: int| 0 <= p < said.len() ==> plan_sound(root@, #[trigger] said[p]),
        },
{
    let sites = collectors(root, ScopeOrder::Outermost)?;
    let ghost model = sites_model(sites@);
    let mut plans: Vec<Escape> = Vec::new();
    let mut claimed = PathSet::new();
    proof {
        lemma_swept(root@, ScopeOrder::Outermost);
        assert(model.take(0) =~= Seq::<SiteModel>::empty());
        assert(escapes_model(plans@) =~= Seq::<EscapeModel>::empty());
    }
    let mut i: usize = 0;
    while i < sites.len()
        invariant
            i <= sites.len(),
            root@.wf(),
            equipped(root@),
            run_size(root@.ops) <= usize::MAX,
            model == sites_model(sites@),
            swept(root@, Seq::empty(), ScopeOrder::Outermost) == Ok::<Seq<SiteModel>, SamplexError>(
                model,
            ),
            forall|k: int|
                0 <= k < model.len() ==> stands_at(root@, (#[trigger] model[k]).scope, model[k].node)
                    && at_site(root@, model[k]).op.is_collector(),
            escapes_for(root@, model.take(i as int)) == Ok::<Seq<EscapeModel>, SamplexError>(
                escapes_model(plans@),
            ),
            holds_sites(claimed@, parties(escapes_model(plans@))),
        decreases sites.len() - i,
    {
        let ghost known = escapes_model(plans@);
        let outer = &sites[i];
        proof {
            assert(model[i as int] == outer@);
            assert(model.take(i + 1).drop_last() =~= model.take(i as int));
            assert(model.take(i + 1).last() == outer@);
            assert(claimed@.contains(path_of(outer@)) <==> takes_part(known, outer@));
        }
        if !claimed.contains(&outer.path()) {
            let mut found: Option<Escape> = None;
            match offered(root, outer, Direction::Left, &claimed, Ghost(known)) {
                Err(error) => {
                    proof {
                        lemma_escapes_stop(root@, model, i + 1);
                    }
                    return Err(error);
                },
                Ok(Some(plan)) => {
                    found = Some(plan);
                },
                Ok(None) => {
                    match offered(root, outer, Direction::Right, &claimed, Ghost(known)) {
                        Err(error) => {
                            proof {
                                lemma_escapes_stop(root@, model, i + 1);
                            }
                            return Err(error);
                        },
                        Ok(second) => {
                            found = second;
                        },
                    }
                },
            }
            if let Some(plan) = found {
                claim(&mut claimed, &plan.outer, Ghost(parties(known)));
                claim(&mut claimed, &plan.inner, Ghost(parties(known).insert(plan.outer@)));
                proof {
                    lemma_parties_push(known, plan@);
                }
                let ghost said = plan@;
                plans.push(plan);
                assert(escapes_model(plans@) =~= known.push(said));
            }
        }
        i += 1;
    }
    proof {
        assert(model.take(i as int) =~= model);
        lemma_escapes_sound(root@, model);
    }
    Ok(plans)
}

/// The escape a collector offers on one side, unless the nested collector is taken.
fn offered(
    root: &Circuit,
    outer: &Site,
    direction: Direction,
    claimed: &PathSet,
    Ghost(known): Ghost<Seq<EscapeModel>>,
) -> (result: Result<Option<Escape>, SamplexError>)
    requires
        root@.wf(),
        equipped(root@),
        run_size(root@.ops) <= usize::MAX,
        stands_at(root@, outer@.scope, outer@.node),
        at_site(root@, outer@).op.is_collector(),
        holds_sites(claimed@, parties(known)),
    ensures
        match offer(root@, outer@, direction, known) {
            Err(error) => result matches Err(reported) && reported == error,
            Ok(None) => result matches Ok(None),
            Ok(Some(said)) => result matches Ok(Some(plan)) && plan@ == said,
        },
{
    match escapable(root, outer, direction)? {
        None => Ok(None),
        Some((inner, wires)) => {
            assert(claimed@.contains(path_of(inner@)) <==> takes_part(known, inner@)) by {
                assert(claimed@.contains(path_of(inner@)) <==> parties(known).contains(inner@));
            }
            if claimed.contains(&inner.path()) {
                Ok(None)
            } else {
                Ok(Some(Escape { outer: outer.clone(), inner, wires, direction }))
            }
        },
    }
}

/// The body of the collector that stays: the two contributions in circuit order, so that the composition order
/// stays right. The outer collector's content comes first exactly when it sits first.
pub open spec fn escape_body(root: CircuitModel, plan: EscapeModel) -> Result<
    CircuitModel,
    SamplexError,
> {
    let outer = at_site(root, plan.outer);
    let inner = at_site(root, plan.inner);
    match body_of(outer) {
        Err(error) => Err(error),
        Ok(own) => match body_of(inner) {
            Err(error) => Err(error),
            Ok(moved) => {
                let frame = outer.qubits;
                let empty = CircuitModel::bare(frame.len(), outer.clbits.len());
                Ok(
                    match plan.direction {
                        Direction::Right => contributed(
                            contributed(empty, own, frame, frame),
                            moved,
                            plan.wires,
                            frame,
                        ),
                        Direction::Left => contributed(
                            contributed(empty, moved, plan.wires, frame),
                            own,
                            frame,
                            frame,
                        ),
                    },
                )
            },
        },
    }
}

/// A circuit with a body put into the collector that stays.
pub open spec fn refilled(
    before: CircuitModel,
    site: SiteModel,
    collect: CollectModel,
    body: CircuitModel,
) -> CircuitModel {
    with_scope(
        before,
        site.scope,
        with_op(scope_of(before, site.scope)->Ok_0, site.node, collect_box(collect), body),
    )
}

/// A circuit with the instruction at a site deleted.
pub open spec fn deleted(before: CircuitModel, site: SiteModel) -> CircuitModel {
    with_scope(before, site.scope, without(scope_of(before, site.scope)->Ok_0, site.node))
}

/// A circuit a pass has been at work on, and the error it stopped on, if it did.
#[verifier::ext_equal]
pub struct Outcome {
    pub circuit: CircuitModel,
    pub error: Option<SamplexError>,
}

/// A circuit once escapes were made, one after another, up to the first that cannot be.
pub open spec fn escaped(root: CircuitModel, plans: Seq<EscapeModel>) -> Outcome
    decreases plans.len(),
{
    if plans.len() == 0 {
        Outcome { circuit: root, error: None }
    } else {
        let before = escaped(root, plans.drop_last());
        if before.error is Some {
            before
        } else {
            let plan = plans.last();
            match escape_body(root, plan) {
                Err(error) => Outcome { error: Some(error), ..before },
                Ok(body) => Outcome {
                    circuit: deleted(
                        refilled(
                            before.circuit,
                            plan.outer,
                            at_site(root, plan.outer).op.collect()->Some_0,
                            body,
                        ),
                        plan.inner,
                    ),
                    error: None,
                },
            }
        }
    }
}

/// A circuit once no collector can leave its box any more: rounds of every escape available, each planned
/// against the circuit the last one left.
pub open spec fn settled(root: CircuitModel) -> Outcome
    decreases run_size(root.ops),
{
    match available_escapes(root) {
        Err(error) => Outcome { circuit: root, error: Some(error) },
        Ok(plans) => {
            let after = escaped(root, plans);
            if plans.len() > 0 && after.error is None && run_size(after.circuit.ops) < run_size(
                root.ops,
            ) {
                settled(after.circuit)
            } else {
                after
            }
        },
    }
}

/// The body a plan makes is as wide as the collector that stays, and no larger than what it is made of.
proof fn lemma_escape_body(root: CircuitModel, plan: EscapeModel)
    requires
        root.wf(),
        plan_sound(root, plan),
        run_size(root.ops) <= usize::MAX,
    ensures
        escape_body(root, plan) matches Ok(body) ==> {
            &&& open_body(
                body,
                at_site(root, plan.outer).qubits,
                at_site(root, plan.outer).clbits.len(),
            )
            &&& run_size(body.ops) <= blocks_size(at_site(root, plan.outer).blocks) + blocks_size(
                at_site(root, plan.inner).blocks,
            )
        },
{
    let outer = at_site(root, plan.outer);
    let inner = at_site(root, plan.inner);
    lemma_stands_at_exists(root, plan.outer.scope, plan.outer.node);
    lemma_stands_at_exists(root, plan.inner.scope, plan.inner.node);
    let outer_scope = scope_of(root, plan.outer.scope)->Ok_0;
    let inner_scope = scope_of(root, plan.inner.scope)->Ok_0;
    assert(outer_scope.get(plan.outer.node).wf(outer_scope.num_qubits, outer_scope.num_clbits));
    assert(inner_scope.get(plan.inner.node).wf(inner_scope.num_qubits, inner_scope.num_clbits));
    lemma_two_sizes(root, plan.outer, plan.inner);
    let frame = outer.qubits;
    let empty = CircuitModel::bare(frame.len(), outer.clbits.len());
    assert(empty.wf());
    assert(on_frame(frame, frame)) by {
        assert forall|k: int| 0 <= k < frame.len() implies frame.contains(#[trigger] frame[k]) by {}
    }
    if let Ok(body) = escape_body(root, plan) {
        let own = body_of(outer)->Ok_0;
        let moved = body_of(inner)->Ok_0;
        if own is Some {
            lemma_blocks_size_one(outer.blocks);
            lemma_ops_within(own->Some_0.ops);
        }
        if moved is Some {
            lemma_blocks_size_one(inner.blocks);
            lemma_ops_within(moved->Some_0.ops);
        }
        let (first, first_wires, second, second_wires) = match plan.direction {
            Direction::Right => (own, frame, moved, plan.wires),
            Direction::Left => (moved, plan.wires, own, frame),
        };
        lemma_contributed(empty, first, first_wires, frame, outer.clbits.len());
        lemma_contributed(
            contributed(empty, first, first_wires, frame),
            second,
            second_wires,
            frame,
            outer.clbits.len(),
        );
    }
}

pub(crate) proof fn lemma_ops_within(ops: Seq<InstructionModel>)
    ensures
        ops.len() <= run_size(ops),
{
    lemma_run_size_take(ops, ops.len() as int);
    assert(ops.take(ops.len() as int) =~= ops);
}

pub(crate) proof fn lemma_contributed(
    out: CircuitModel,
    contribution: Option<CircuitModel>,
    wires: Seq<usize>,
    frame: Seq<usize>,
    num_clbits: nat,
)
    requires
        open_body(out, frame, num_clbits),
        frame.len() <= usize::MAX,
        on_frame(frame, wires),
        contribution matches Some(body) ==> body.wf() && body.num_qubits == wires.len()
            && out.ops.len() + body.ops.len() <= usize::MAX,
    ensures
        ({
            let after = contributed(out, contribution, wires, frame);
            let more = match contribution {
                Some(body) => body.ops.len(),
                None => 0nat,
            };
            &&& open_body(after, frame, num_clbits)
            &&& after.ops.len() == out.ops.len() + more
            &&& run_size(after.ops) == run_size(out.ops) + more
        }),
{
    if let Some(body) = contribution {
        lemma_appended(out, body.ops, body.num_qubits, body.num_clbits, wires, frame, num_clbits);
    }
}

/// What two collectors of a circuit hold fits in the circuit.
proof fn lemma_two_sizes(root: CircuitModel, one: SiteModel, other: SiteModel)
    requires
        root.wf(),
        stands_at(root, one.scope, one.node),
        stands_at(root, other.scope, other.node),
        at_site(root, one).op.is_box(),
        one != other,
    ensures
        blocks_size(at_site(root, one).blocks) + blocks_size(at_site(root, other).blocks)
            <= run_size(root.ops),
{
    lemma_stands_at_exists(root, one.scope, one.node);
    lemma_stands_at_exists(root, other.scope, other.node);
    let scope = scope_of(root, one.scope)->Ok_0;
    let at = scope.at(one.node);
    assert(scope.ops[at].node == one.node);
    lemma_without(scope, one.node);
    lemma_size_of_rewrite(root, one.scope, one.node, without(scope, one.node));
    lemma_size_of_removal(scope.ops, at);
    lemma_rewrite(root, one.scope, one.node, without(scope, one.node));
    lemma_rewrite_elsewhere(
        root,
        one.scope,
        one.node,
        without(scope, one.node),
        other.scope,
        other.node,
    );
    let after = with_scope(root, one.scope, without(scope, one.node));
    lemma_stands_at_exists(after, other.scope, other.node);
    let there = scope_of(after, other.scope)->Ok_0;
    let place = there.at(other.node);
    assert(there.ops[place].node == other.node);
    lemma_size_of_removal(there.ops, place);
    lemma_size_of_rewrite(after, other.scope, other.node, there);
}

/// Making one escape leaves the circuit well formed, equipped and smaller, and every other site as it was.
#[verifier::spinoff_prover]
proof fn lemma_escape(root: CircuitModel, before: CircuitModel, plan: EscapeModel, body: CircuitModel)
    requires
        root.wf(),
        equipped(root),
        run_size(root.ops) <= usize::MAX,
        plan_sound(root, plan),
        escape_body(root, plan) == Ok::<CircuitModel, SamplexError>(body),
        before.wf(),
        equipped(before),
        stands_at(before, plan.outer.scope, plan.outer.node),
        site_instruction(before, plan.outer) == site_instruction(root, plan.outer),
        stands_at(before, plan.inner.scope, plan.inner.node),
        site_instruction(before, plan.inner) == site_instruction(root, plan.inner),
    ensures
        ({
            let collect = at_site(root, plan.outer).op.collect()->Some_0;
            let filled = refilled(before, plan.outer, collect, body);
            let after = deleted(filled, plan.inner);
            &&& filled.wf()
            &&& stands_at(filled, plan.inner.scope, plan.inner.node)
            &&& after.wf()
            &&& equipped(after)
            &&& after.num_qubits == before.num_qubits
            &&& after.num_clbits == before.num_clbits
            &&& run_size(after.ops) < run_size(before.ops)
            &&& forall|other: SiteModel|
                #![trigger stands_at(after, other.scope, other.node)]
                stands_at(before, other.scope, other.node) && other != plan.outer && other
                    != plan.inner ==> stands_at(after, other.scope, other.node)
                    && site_instruction(after, other) == site_instruction(before, other)
        }),
{
    let collect = at_site(root, plan.outer).op.collect()->Some_0;
    let filled = refilled(before, plan.outer, collect, body);
    let after = deleted(filled, plan.inner);
    lemma_escape_body(root, plan);
    lemma_stands_at_exists(before, plan.outer.scope, plan.outer.node);
    lemma_stands_at_exists(root, plan.outer.scope, plan.outer.node);
    let scope = scope_of(before, plan.outer.scope)->Ok_0;
    let outer = scope.get(plan.outer.node);
    let at = scope.at(plan.outer.node);
    assert(scope.ops[at].node == plan.outer.node);
    assert(outer == at_site(root, plan.outer));
    let inner_scope = with_op(scope, plan.outer.node, collect_box(collect), body);
    lemma_with_op(scope, plan.outer.node, collect_box(collect), body);
    lemma_rewrite(before, plan.outer.scope, plan.outer.node, inner_scope);
    lemma_rewrite_elsewhere(
        before,
        plan.outer.scope,
        plan.outer.node,
        inner_scope,
        plan.inner.scope,
        plan.inner.node,
    );
    lemma_size_of_rewrite(before, plan.outer.scope, plan.outer.node, inner_scope);
    lemma_size_of_update(scope.ops, at, inner_scope.ops[at]);
    lemma_blocks_size_one(inner_scope.ops[at].blocks);
    lemma_equipped_at(before, plan.outer.scope, plan.outer.node);
    assert(collect_box(collect).collect() == Some(collect));
    assert(equipped(inner_scope)) by {
        assert forall|i: int| 0 <= i < inner_scope.ops.len() implies equipped_at(
            #[trigger] inner_scope.ops[i],
        ) by {
            assert(equipped_at(scope.ops[i]));
        }
    }
    lemma_equipped_rewrite(before, plan.outer.scope, plan.outer.node, inner_scope);
    lemma_stands_at_exists(filled, plan.inner.scope, plan.inner.node);
    let there = scope_of(filled, plan.inner.scope)->Ok_0;
    let place = there.at(plan.inner.node);
    assert(there.ops[place].node == plan.inner.node);
    let rest = without(there, plan.inner.node);
    lemma_without(there, plan.inner.node);
    lemma_rewrite(filled, plan.inner.scope, plan.inner.node, rest);
    lemma_size_of_rewrite(filled, plan.inner.scope, plan.inner.node, rest);
    lemma_size_of_removal(there.ops, place);
    lemma_equipped_at(filled, plan.inner.scope, plan.inner.node);
    assert(equipped(rest)) by {
        assert forall|i: int| 0 <= i < rest.ops.len() implies equipped_at(
            #[trigger] rest.ops[i],
        ) by {
            assert(rest.ops[i] == there.ops[if i < place {
                i
            } else {
                i + 1
            }]);
        }
    }
    lemma_equipped_rewrite(filled, plan.inner.scope, plan.inner.node, rest);
    assert forall|other: SiteModel|
        #![trigger stands_at(after, other.scope, other.node)]
        stands_at(before, other.scope, other.node) && other != plan.outer && other
            != plan.inner implies stands_at(after, other.scope, other.node) && site_instruction(
        after,
        other,
    ) == site_instruction(before, other) by {
        lemma_rewrite_elsewhere(
            before,
            plan.outer.scope,
            plan.outer.node,
            inner_scope,
            other.scope,
            other.node,
        );
        lemma_rewrite_elsewhere(
            filled,
            plan.inner.scope,
            plan.inner.node,
            rest,
            other.scope,
            other.node,
        );
    }
}

/// Making escapes leaves the circuit well formed and equipped, smaller by at least one instruction for each,
/// and every site that takes part in none as it was.
proof fn lemma_escaped(root: CircuitModel, plans: Seq<EscapeModel>)
    requires
        root.wf(),
        equipped(root),
        run_size(root.ops) <= usize::MAX,
        apart(plans),
        forall|p: int| 0 <= p < plans.len() ==> plan_sound(root, #[trigger] plans[p]),
    ensures
        ({
            let after = escaped(root, plans);
            &&& after.circuit.wf()
            &&& equipped(after.circuit)
            &&& after.circuit.num_qubits == root.num_qubits
            &&& after.circuit.num_clbits == root.num_clbits
            &&& run_size(after.circuit.ops) <= run_size(root.ops)
            &&& after.error is None && plans.len() > 0 ==> run_size(after.circuit.ops) < run_size(
                root.ops,
            )
            &&& forall|other: SiteModel|
                #![trigger stands_at(after.circuit, other.scope, other.node)]
                stands_at(root, other.scope, other.node) && !takes_part(plans, other) ==> stands_at(
                    after.circuit,
                    other.scope,
                    other.node,
                ) && site_instruction(after.circuit, other) == site_instruction(root, other)
        }),
    decreases plans.len(),
{
    if plans.len() > 0 {
        let front = plans.drop_last();
        let plan = plans.last();
        assert(plans[plans.len() - 1] == plan);
        assert(plan_sound(root, plan));
        assert forall|p: int| 0 <= p < front.len() implies plan_sound(root, #[trigger] front[p]) by {
            assert(plans[p] == front[p]);
        }
        assert(apart(front)) by {
            assert forall|p: int, q: int| 0 <= p < q < front.len() implies {
                let one = #[trigger] front[p];
                let other = #[trigger] front[q];
                one.outer != other.outer && one.outer != other.inner && one.inner != other.outer
                    && one.inner != other.inner
            } by {
                assert(plans[p] == front[p]);
                assert(plans[q] == front[q]);
            }
        }
        lemma_escaped(root, front);
        let before = escaped(root, front);
        let after = escaped(root, plans);
        assert forall|other: SiteModel| #[trigger] takes_part(front, other) implies takes_part(
            plans,
            other,
        ) by {
            let p = choose|p: int|
                0 <= p < front.len() && ((#[trigger] front[p]).outer == other || front[p].inner
                    == other);
            assert(plans[p] == front[p]);
        }
        lemma_takes_part_apart(plans);
        if before.error is None && escape_body(root, plan) is Ok {
            assert(stands_at(before.circuit, plan.outer.scope, plan.outer.node));
            assert(stands_at(before.circuit, plan.inner.scope, plan.inner.node));
            lemma_escape(root, before.circuit, plan, escape_body(root, plan)->Ok_0);
        }
        assert forall|other: SiteModel|
            #![trigger stands_at(after.circuit, other.scope, other.node)]
            stands_at(root, other.scope, other.node) && !takes_part(plans, other) implies stands_at(
            after.circuit,
            other.scope,
            other.node,
        ) && site_instruction(after.circuit, other) == site_instruction(root, other) by {
            assert(!takes_part(front, other));
            assert(stands_at(before.circuit, other.scope, other.node));
            assert(other != plan.outer && other != plan.inner) by {
                assert(plans[plans.len() - 1] == plan);
            }
            if before.error is None && escape_body(root, plan) is Ok {
                let done = deleted(
                    refilled(
                        before.circuit,
                        plan.outer,
                        at_site(root, plan.outer).op.collect()->Some_0,
                        escape_body(root, plan)->Ok_0,
                    ),
                    plan.inner,
                );
                assert(after.circuit == done);
                assert(stands_at(done, other.scope, other.node));
            } else {
                assert(after.circuit == before.circuit);
            }
        }
    }
}

proof fn lemma_takes_part_apart(plans: Seq<EscapeModel>)
    requires
        apart(plans),
        plans.len() > 0,
    ensures
        !takes_part(plans.drop_last(), plans.last().outer),
        !takes_part(plans.drop_last(), plans.last().inner),
{
    let front = plans.drop_last();
    let last = plans.len() - 1;
    assert forall|p: int| 0 <= p < front.len() implies (#[trigger] front[p]).outer
        != plans.last().outer && front[p].outer != plans.last().inner && front[p].inner
        != plans.last().outer && front[p].inner != plans.last().inner by {
        assert(plans[p] == front[p]);
        assert(plans[last] == plans.last());
    }
}

proof fn lemma_escaped_stops(root: CircuitModel, plans: Seq<EscapeModel>, k: int)
    requires
        0 <= k <= plans.len(),
        escaped(root, plans.take(k)).error is Some,
    ensures
        escaped(root, plans) == escaped(root, plans.take(k)),
    decreases plans.len() - k,
{
    if k == plans.len() {
        assert(plans.take(k) =~= plans);
    } else {
        assert(plans.take(k + 1).drop_last() =~= plans.take(k));
        lemma_escaped_stops(root, plans, k + 1);
    }
}

/// Every escape keeps what it was planned with: the plans against a circuit are sound and apart.
proof fn lemma_available(root: CircuitModel)
    requires
        root.wf(),
        available_escapes(root) is Ok,
    ensures
        apart(available_escapes(root)->Ok_0),
        forall|p: int|
            0 <= p < available_escapes(root)->Ok_0.len() ==> plan_sound(
                root,
                #[trigger] available_escapes(root)->Ok_0[p],
            ) && plan_close(root, available_escapes(root)->Ok_0[p]),
{
    lemma_swept(root, ScopeOrder::Outermost);
    lemma_escapes_sound(root, swept(root, Seq::empty(), ScopeOrder::Outermost)->Ok_0);
    lemma_escapes_close(root, swept(root, Seq::empty(), ScopeOrder::Outermost)->Ok_0);
}

/// Escaping runs to a fixed point: unless it stops on an error, no collector is left that could leave its box.
/// The circuit stays well formed, and equipped, and does not grow.
pub proof fn lemma_settled_is_a_fixed_point(root: CircuitModel)
    requires
        root.wf(),
        equipped(root),
        run_size(root.ops) <= usize::MAX,
    ensures
        settled(root).error is None ==> available_escapes(settled(root).circuit) == Ok::<
            Seq<EscapeModel>,
            SamplexError,
        >(Seq::empty()),
        settled(root).circuit.wf(),
        equipped(settled(root).circuit),
        settled(root).circuit.num_qubits == root.num_qubits,
        settled(root).circuit.num_clbits == root.num_clbits,
        run_size(settled(root).circuit.ops) <= run_size(root.ops),
    decreases run_size(root.ops),
{
    if available_escapes(root) is Ok {
        let plans = available_escapes(root)->Ok_0;
        lemma_available(root);
        lemma_escaped(root, plans);
        let after = escaped(root, plans);
        if plans.len() > 0 && after.error is None {
            lemma_settled_is_a_fixed_point(after.circuit);
        } else if plans.len() == 0 {
            assert(plans =~= Seq::<EscapeModel>::empty());
        }
    }
}

/// Whether an instruction is another up to what it holds: a collector still collects the same way on the same
/// wires, a content box may hold another body, and anything else is as it was.
pub open spec fn same_outline(before: InstructionModel, after: InstructionModel) -> bool {
    &&& after.node == before.node
    &&& after.qubits == before.qubits
    &&& after.clbits == before.clbits
    &&& after.op.collect() == before.op.collect()
    &&& !before.op.is_collector() ==> after == (InstructionModel { blocks: after.blocks, ..before })
    &&& !before.op.is_box() ==> after == before
}

/// Whether two runs have the same instructions one by one, up to what those hold.
pub open spec fn outline_kept(before: Seq<InstructionModel>, after: Seq<InstructionModel>) -> bool {
    &&& after.len() == before.len()
    &&& forall|i: int| 0 <= i < before.len() ==> same_outline(#[trigger] before[i], after[i])
}

/// Rewriting a scope inside a content box keeps the outline.
proof fn lemma_outline_of_rewrite(
    before: CircuitModel,
    scope: Seq<usize>,
    node: usize,
    inner: CircuitModel,
)
    requires
        stands_at(before, scope, node),
        scope.len() > 0,
    ensures
        outline_kept(before.ops, with_scope(before, scope, inner).ops),
{
    let at = before.at(scope[0]);
    assert(before.ops[at].node == scope[0]);
    assert(before.ops[at].op.is_content_box());
}

/// Making escapes keeps the outline of the outermost scope.
proof fn lemma_escaped_keeps_outline(root: CircuitModel, plans: Seq<EscapeModel>)
    requires
        root.wf(),
        equipped(root),
        run_size(root.ops) <= usize::MAX,
        apart(plans),
        forall|p: int| 0 <= p < plans.len() ==> plan_sound(root, #[trigger] plans[p]),
    ensures
        outline_kept(root.ops, escaped(root, plans).circuit.ops),
    decreases plans.len(),
{
    if plans.len() > 0 {
        let front = plans.drop_last();
        let plan = plans.last();
        assert(plans[plans.len() - 1] == plan);
        assert(plan_sound(root, plan));
        assert forall|p: int| 0 <= p < front.len() implies plan_sound(root, #[trigger] front[p]) by {
            assert(plans[p] == front[p]);
        }
        assert(apart(front)) by {
            assert forall|p: int, q: int| 0 <= p < q < front.len() implies {
                let one = #[trigger] front[p];
                let other = #[trigger] front[q];
                one.outer != other.outer && one.outer != other.inner && one.inner != other.outer
                    && one.inner != other.inner
            } by {
                assert(plans[p] == front[p]);
                assert(plans[q] == front[q]);
            }
        }
        lemma_escaped_keeps_outline(root, front);
        lemma_escaped(root, front);
        lemma_takes_part_apart(plans);
        let before = escaped(root, front);
        if before.error is None && escape_body(root, plan) is Ok {
            let body = escape_body(root, plan)->Ok_0;
            let collect = at_site(root, plan.outer).op.collect()->Some_0;
            assert(stands_at(before.circuit, plan.outer.scope, plan.outer.node));
            assert(stands_at(before.circuit, plan.inner.scope, plan.inner.node));
            lemma_escape(root, before.circuit, plan, body);
            let filled = refilled(before.circuit, plan.outer, collect, body);
            assert(outline_kept(before.circuit.ops, filled.ops)) by {
                if plan.outer.scope.len() == 0 {
                    let at = before.circuit.at(plan.outer.node);
                    assert(before.circuit.ops[at].node == plan.outer.node);
                    assert(collect_box(collect).collect() == Some(collect));
                    assert(before.circuit.ops[at] == at_site(root, plan.outer));
                } else {
                    lemma_outline_of_rewrite(
                        before.circuit,
                        plan.outer.scope,
                        plan.outer.node,
                        with_op(
                            scope_of(before.circuit, plan.outer.scope)->Ok_0,
                            plan.outer.node,
                            collect_box(collect),
                            body,
                        ),
                    );
                }
            }
            lemma_outline_of_rewrite(
                filled,
                plan.inner.scope,
                plan.inner.node,
                without(scope_of(filled, plan.inner.scope)->Ok_0, plan.inner.node),
            );
            let after = deleted(filled, plan.inner);
            assert forall|i: int| 0 <= i < root.ops.len() implies same_outline(
                #[trigger] root.ops[i],
                after.ops[i],
            ) by {
                assert(same_outline(root.ops[i], before.circuit.ops[i]));
                assert(same_outline(before.circuit.ops[i], filled.ops[i]));
                assert(same_outline(filled.ops[i], after.ops[i]));
            }
        }
    }
}

/// Escapes happen inside boxes: the outermost scope keeps its instructions, in their order, on their wires,
/// and every collector of it collects as it did.
pub proof fn lemma_escapes_keep_the_outline(root: CircuitModel)
    requires
        root.wf(),
        equipped(root),
        run_size(root.ops) <= usize::MAX,
    ensures
        outline_kept(root.ops, settled(root).circuit.ops),
    decreases run_size(root.ops),
{
    if available_escapes(root) is Ok {
        let plans = available_escapes(root)->Ok_0;
        lemma_available(root);
        lemma_escaped(root, plans);
        lemma_escaped_keeps_outline(root, plans);
        let after = escaped(root, plans);
        if plans.len() > 0 && after.error is None {
            lemma_escapes_keep_the_outline(after.circuit);
            let end = settled(root).circuit;
            assert forall|i: int| 0 <= i < root.ops.len() implies same_outline(
                #[trigger] root.ops[i],
                end.ops[i],
            ) by {
                assert(same_outline(root.ops[i], after.circuit.ops[i]));
                assert(same_outline(after.circuit.ops[i], end.ops[i]));
            }
        }
    }
}

/// Where no box holds a collector, a collector of the outermost scope has nothing to offer.
proof fn lemma_no_offer(
    root: CircuitModel,
    outer: SiteModel,
    direction: Direction,
    plans: Seq<EscapeModel>,
)
    requires
        root.wf(),
        swept(root, Seq::empty(), ScopeOrder::Outermost) == Ok::<Seq<SiteModel>, SamplexError>(
            own_collectors(root.ops, Seq::empty()),
        ),
        outer.scope.len() == 0,
        stands_at(root, outer.scope, outer.node),
    ensures
        offer(root, outer, direction, plans) == Ok::<Option<EscapeModel>, SamplexError>(None),
{
    let look = view_from(root, outer, direction);
    lemma_outlook(look);
    lemma_no_candidates(look, look.qubits.len());
    let none = Seq::<SiteModel>::empty();
    assert(first_escaping(look, none) == Ok::<Option<SiteModel>, SamplexError>(None));
}

proof fn lemma_no_candidates(look: Outlook, count: nat)
    requires
        look.wf(),
        swept(look.root, Seq::empty(), ScopeOrder::Outermost) == Ok::<Seq<SiteModel>, SamplexError>(
            own_collectors(look.root.ops, Seq::empty()),
        ),
        look.site.scope.len() == 0,
        count <= look.qubits.len(),
    ensures
        inner_candidates(look, count) == Ok::<Seq<SiteModel>, SamplexError>(Seq::empty()),
    decreases count,
{
    if count > 0 {
        lemma_no_candidates(look, (count - 1) as nat);
        lemma_outlook(look);
        lemma_start_fits(look);
        let root = look.root;
        let nowhere = Seq::<usize>::empty();
        let wire = look.qubits[count - 1];
        let front = look.front(wire);
        assert(look.site.scope =~= nowhere);
        assert(look.scope() == root);
        let at = root.at(look.site.node);
        assert(root.ops[at].node == look.site.node);
        lemma_swept_wires_run_on(root, nowhere, ScopeOrder::Outermost, at, wire, look.direction);
        if front.len() > 0 {
            assert(front[0] is At);
            assert(look.start().fronts[count - 1] == front);
            lemma_stop(look, wire, front, 0);
            let site = front[0]->At_0;
            if look.inside(site) && at_site(root, site).op.is_collector() {
                assert(site.scope.skip(0) =~= site.scope);
                assert(site.scope.take(0) =~= nowhere);
                assert(collects_at(root, nowhere, site));
                lemma_sweep_reports_every_collector(root, nowhere, ScopeOrder::Outermost, site);
                let own = own_collectors(root.ops, nowhere);
                let k = own.index_of(site);
                assert(own[k] == site);
                assert(root.ops.take(root.ops.len() as int) =~= root.ops);
                lemma_own_each_once(root, nowhere, root.ops.len() as int);
            }
        }
    }
}

/// Where no box holds a collector, nothing escapes.
pub(crate) proof fn lemma_nothing_escapes(root: CircuitModel)
    requires
        root.wf(),
        swept(root, Seq::empty(), ScopeOrder::Outermost) == Ok::<Seq<SiteModel>, SamplexError>(
            own_collectors(root.ops, Seq::empty()),
        ),
    ensures
        settled(root) == (Outcome { circuit: root, error: None }),
{
    let own = own_collectors(root.ops, Seq::empty());
    assert(root.ops.take(root.ops.len() as int) =~= root.ops);
    lemma_own_each_once(root, Seq::empty(), root.ops.len() as int);
    assert forall|k: int| 0 <= k < own.len() implies (#[trigger] own[k]).scope.len() == 0 && stands_at(
        root,
        own[k].scope,
        own[k].node,
    ) by {
        assert(own[k].scope.skip(0) =~= own[k].scope);
        assert(collects_at(root, Seq::empty(), own[k]));
    }
    lemma_no_escapes_for(root, own);
    assert(available_escapes(root) == Ok::<Seq<EscapeModel>, SamplexError>(Seq::empty()));
}

proof fn lemma_no_escapes_for(root: CircuitModel, sites: Seq<SiteModel>)
    requires
        root.wf(),
        swept(root, Seq::empty(), ScopeOrder::Outermost) == Ok::<Seq<SiteModel>, SamplexError>(
            own_collectors(root.ops, Seq::empty()),
        ),
        forall|k: int|
            0 <= k < sites.len() ==> (#[trigger] sites[k]).scope.len() == 0 && stands_at(
                root,
                sites[k].scope,
                sites[k].node,
            ),
    ensures
        escapes_for(root, sites) == Ok::<Seq<EscapeModel>, SamplexError>(Seq::empty()),
    decreases sites.len(),
{
    if sites.len() > 0 {
        let front = sites.drop_last();
        assert forall|k: int| 0 <= k < front.len() implies (#[trigger] front[k]).scope.len() == 0
            && stands_at(root, front[k].scope, front[k].node) by {
            assert(sites[k] == front[k]);
        }
        lemma_no_escapes_for(root, front);
        assert(sites[sites.len() - 1] == sites.last());
        lemma_no_offer(root, sites.last(), Direction::Left, Seq::empty());
        lemma_no_offer(root, sites.last(), Direction::Right, Seq::empty());
    }
}

// --- When nothing is refused ----------------------------------------------------------------------

/// Whether every instruction of a run, at any depth, holds at most one circuit.
pub open spec fn one_each(ops: Seq<InstructionModel>) -> bool
    decreases ops,
{
    forall|i: int|
        0 <= i < ops.len() ==> (#[trigger] ops[i]).blocks.len() <= 1 && (ops[i].blocks.len() == 1
            ==> one_each(ops[i].blocks[0].ops))
}

/// Whether every instruction of a run, at any depth, holds at most one circuit, and every content box reached
/// holds one.
pub open spec fn housed(ops: Seq<InstructionModel>) -> bool
    decreases ops,
{
    forall|i: int| 0 <= i < ops.len() ==> housed_one(#[trigger] ops[i])
}

/// Whether one instruction is a content box with one body of that sort, or holds at most one circuit.
pub open spec fn housed_one(inst: InstructionModel) -> bool
    decreases inst,
{
    &&& inst.blocks.len() <= 1
    &&& inst.op.is_content_box() ==> inst.blocks.len() == 1 && housed(inst.blocks[0].ops)
    &&& !inst.op.is_content_box() && inst.blocks.len() == 1 ==> one_each(inst.blocks[0].ops)
}

proof fn lemma_housed_one_each(ops: Seq<InstructionModel>)
    requires
        housed(ops),
    ensures
        one_each(ops),
    decreases ops,
{
    assert forall|i: int| 0 <= i < ops.len() implies (#[trigger] ops[i]).blocks.len() <= 1 && (
    ops[i].blocks.len() == 1 ==> one_each(ops[i].blocks[0].ops)) by {
        assert(housed_one(ops[i]));
        if ops[i].op.is_content_box() {
            assert(decreases_to!(ops => ops[i]));
            assert(decreases_to!(ops[i] => ops[i].blocks));
            assert(decreases_to!(ops[i].blocks => ops[i].blocks[0]));
            assert(decreases_to!(ops[i].blocks[0] => ops[i].blocks[0].ops));
            lemma_housed_one_each(ops[i].blocks[0].ops);
        }
    }
}

proof fn lemma_one_each_counts(ops: Seq<InstructionModel>)
    requires
        one_each(ops),
    ensures
        subtree_tally(ops) is Ok,
    decreases ops,
{
    if ops.len() > 0 {
        let front = ops.drop_last();
        let last = ops.len() - 1;
        assert(one_each(front)) by {
            assert forall|i: int| 0 <= i < front.len() implies (#[trigger] front[i]).blocks.len() <= 1
                && (front[i].blocks.len() == 1 ==> one_each(front[i].blocks[0].ops)) by {
                assert(ops[i] == front[i]);
            }
        }
        assert(ops[last] == ops.last());
        assert(decreases_to!(ops => front));
        lemma_one_each_counts(front);
        if ops[last].blocks.len() == 1 {
            assert(decreases_to!(ops => ops[last]));
            assert(decreases_to!(ops[last] => ops[last].blocks));
            assert(decreases_to!(ops[last].blocks => ops[last].blocks[0]));
            assert(decreases_to!(ops[last].blocks[0] => ops[last].blocks[0].ops));
            lemma_one_each_counts(ops[last].blocks[0].ops);
        }
    }
}

proof fn lemma_housed_sweeps(ops: Seq<InstructionModel>, path: Seq<usize>, order: ScopeOrder)
    requires
        housed(ops),
    ensures
        nested_collectors(ops, path, order) is Ok,
    decreases ops,
{
    if ops.len() > 0 {
        let front = ops.drop_last();
        let last = ops.len() - 1;
        assert(housed(front)) by {
            assert forall|i: int| 0 <= i < front.len() implies housed_one(#[trigger] front[i]) by {
                assert(ops[i] == front[i]);
                assert(housed_one(ops[i]));
            }
        }
        assert(housed_one(ops[last]));
        assert(decreases_to!(ops => front));
        lemma_housed_sweeps(front, path, order);
        if ops[last].op.is_content_box() {
            assert(decreases_to!(ops => ops[last]));
            assert(decreases_to!(ops[last] => ops[last].blocks));
            assert(decreases_to!(ops[last].blocks => ops[last].blocks[0]));
            assert(decreases_to!(ops[last].blocks[0] => ops[last].blocks[0].ops));
            lemma_housed_sweeps(ops[last].blocks[0].ops, path.push(ops[last].node), order);
            assert(swept(ops[last].blocks[0], path.push(ops[last].node), order) is Ok);
        }
    }
}

proof fn lemma_housed_at(root: CircuitModel, scope: Seq<usize>, node: usize)
    requires
        root.wf(),
        housed(root.ops),
        stands_at(root, scope, node),
    ensures
        housed_one(at_site(root, SiteModel { scope, node })),
        housed(scope_of(root, scope)->Ok_0.ops),
    decreases scope.len(),
{
    lemma_stands_at_exists(root, scope, node);
    if scope.len() == 0 {
        assert(housed_one(root.ops[root.at(node)]));
    } else {
        let inst = root.get(scope[0]);
        assert(housed_one(root.ops[root.at(scope[0])]));
        assert(inst.wf(root.num_qubits, root.num_clbits));
        lemma_housed_at(inst.blocks[0], scope.drop_first(), node);
    }
}

proof fn lemma_housed_rewrite(
    root: CircuitModel,
    scope: Seq<usize>,
    node: usize,
    inner: CircuitModel,
)
    requires
        root.wf(),
        housed(root.ops),
        stands_at(root, scope, node),
        housed(inner.ops),
    ensures
        housed(with_scope(root, scope, inner).ops),
    decreases scope.len(),
{
    if scope.len() > 0 {
        let at = root.at(scope[0]);
        let inst = root.ops[at];
        assert(root.get(scope[0]) == inst);
        assert(housed_one(inst));
        assert(inst.wf(root.num_qubits, root.num_clbits));
        lemma_housed_rewrite(inst.blocks[0], scope.drop_first(), node, inner);
        let after = with_scope(root, scope, inner);
        assert forall|i: int| 0 <= i < after.ops.len() implies housed_one(#[trigger] after.ops[i]) by {
            assert(housed_one(root.ops[i]));
        }
    }
}

/// What is appended to a body holds nothing itself.
proof fn lemma_appended_one_each(
    out: CircuitModel,
    run: Seq<InstructionModel>,
    wires: Seq<usize>,
    frame: Seq<usize>,
)
    requires
        one_each(out.ops),
    ensures
        one_each(appended(out, run, wires, frame).ops),
    decreases run.len(),
{
    if run.len() > 0 {
        let before = appended(out, run.drop_last(), wires, frame);
        lemma_appended_one_each(out, run.drop_last(), wires, frame);
        let after = appended(out, run, wires, frame);
        assert forall|i: int| 0 <= i < after.ops.len() implies (#[trigger] after.ops[i]).blocks.len() <= 1
            && (after.ops[i].blocks.len() == 1 ==> one_each(after.ops[i].blocks[0].ops)) by {
            if i < before.ops.len() {
                assert(after.ops[i] == before.ops[i]);
            }
        }
    }
}

/// In a circuit whose content boxes hold one body each, every collector can be judged.
proof fn lemma_housed_judged(root: CircuitModel, outer: SiteModel, direction: Direction)
    requires
        root.wf(),
        housed(root.ops),
        stands_at(root, outer.scope, outer.node),
    ensures
        escaping(view_from(root, outer, direction)) is Ok,
{
    let look = view_from(root, outer, direction);
    lemma_outlook(look);
    lemma_housed_candidates(look, look.qubits.len());
    lemma_candidates(look, look.qubits.len());
    let candidates = inner_candidates(look, look.qubits.len())->Ok_0;
    assert forall|k: int| 0 <= k < candidates.len() implies may_escape(
        look,
        #[trigger] candidates[k],
    ) is Ok by {
        let inner = candidates[k];
        assert(nested_collector(look, inner));
        lemma_housed_at(root, inner.scope, inner.node);
        let there = scope_of(root, inner.scope)->Ok_0;
        lemma_housed_one_each(there.ops);
        lemma_one_each_counts(there.ops);
    }
    lemma_all_judged(look, candidates);
}

proof fn lemma_all_judged(look: Outlook, candidates: Seq<SiteModel>)
    requires
        forall|k: int|
            0 <= k < candidates.len() ==> may_escape(look, #[trigger] candidates[k]) is Ok,
    ensures
        first_escaping(look, candidates) is Ok,
    decreases candidates.len(),
{
    if candidates.len() > 0 {
        let rest = candidates.drop_first();
        assert forall|k: int| 0 <= k < rest.len() implies may_escape(look, #[trigger] rest[k]) is Ok by {
            assert(rest[k] == candidates[k + 1]);
        }
        assert(may_escape(look, candidates[0]) is Ok);
        lemma_all_judged(look, rest);
    }
}

proof fn lemma_housed_candidates(look: Outlook, count: nat)
    requires
        look.wf(),
        housed(look.root.ops),
        count <= look.qubits.len(),
    ensures
        inner_candidates(look, count) is Ok,
    decreases count,
{
    if count > 0 {
        lemma_housed_candidates(look, (count - 1) as nat);
        lemma_outlook(look);
        lemma_housed_at(look.root, look.site.scope, look.site.node);
        let scope = look.scope();
        let wire = look.qubits[count - 1];
        let front = look.front(wire);
        let at = scope.at(look.site.node);
        assert(scope.ops[at].node == look.site.node);
        lemma_housed_sweeps(scope.ops, look.site.scope, ScopeOrder::Outermost);
        assert(swept(scope, look.site.scope, ScopeOrder::Outermost) is Ok);
        lemma_swept_wires_run_on(
            scope,
            look.site.scope,
            ScopeOrder::Outermost,
            at,
            wire,
            look.direction,
        );
        if front.len() > 0 {
            assert(front[0] is At);
        }
    }
}

proof fn lemma_housed_plans(root: CircuitModel, sites: Seq<SiteModel>)
    requires
        root.wf(),
        housed(root.ops),
        forall|k: int|
            0 <= k < sites.len() ==> stands_at(root, (#[trigger] sites[k]).scope, sites[k].node),
    ensures
        escapes_for(root, sites) is Ok,
    decreases sites.len(),
{
    if sites.len() > 0 {
        let front = sites.drop_last();
        assert forall|k: int| 0 <= k < front.len() implies stands_at(
            root,
            (#[trigger] front[k]).scope,
            front[k].node,
        ) by {
            assert(sites[k] == front[k]);
        }
        lemma_housed_plans(root, front);
        assert(sites[sites.len() - 1] == sites.last());
        lemma_housed_judged(root, sites.last(), Direction::Left);
        lemma_housed_judged(root, sites.last(), Direction::Right);
    }
}

/// Making one escape leaves every content box with one body.
proof fn lemma_escape_keeps_housed(
    root: CircuitModel,
    before: CircuitModel,
    plan: EscapeModel,
    body: CircuitModel,
)
    requires
        root.wf(),
        equipped(root),
        run_size(root.ops) <= usize::MAX,
        plan_sound(root, plan),
        escape_body(root, plan) == Ok::<CircuitModel, SamplexError>(body),
        before.wf(),
        equipped(before),
        housed(before.ops),
        stands_at(before, plan.outer.scope, plan.outer.node),
        site_instruction(before, plan.outer) == site_instruction(root, plan.outer),
        stands_at(before, plan.inner.scope, plan.inner.node),
        site_instruction(before, plan.inner) == site_instruction(root, plan.inner),
    ensures
        housed(
            deleted(
                refilled(before, plan.outer, at_site(root, plan.outer).op.collect()->Some_0, body),
                plan.inner,
            ).ops,
        ),
{
    let collect = at_site(root, plan.outer).op.collect()->Some_0;
    let filled = refilled(before, plan.outer, collect, body);
    lemma_escape(root, before, plan, body);
    let outer = at_site(root, plan.outer);
    let own = body_of(outer)->Ok_0;
    let moved = body_of(at_site(root, plan.inner))->Ok_0;
    let frame = outer.qubits;
    let empty = CircuitModel::bare(frame.len(), outer.clbits.len());
    let (first, first_wires, second, second_wires) = match plan.direction {
        Direction::Right => (own, frame, moved, plan.wires),
        Direction::Left => (moved, plan.wires, own, frame),
    };
    assert(one_each(empty.ops));
    let half = contributed(empty, first, first_wires, frame);
    if let Some(content) = first {
        lemma_appended_one_each(empty, content.ops, first_wires, frame);
    }
    if let Some(content) = second {
        lemma_appended_one_each(half, content.ops, second_wires, frame);
    }
    assert(one_each(body.ops));
    lemma_housed_at(before, plan.outer.scope, plan.outer.node);
    lemma_stands_at_exists(before, plan.outer.scope, plan.outer.node);
    let scope = scope_of(before, plan.outer.scope)->Ok_0;
    let inner_scope = with_op(scope, plan.outer.node, collect_box(collect), body);
    assert(collect_box(collect).collect() == Some(collect));
    assert forall|i: int| 0 <= i < inner_scope.ops.len() implies housed_one(
        #[trigger] inner_scope.ops[i],
    ) by {
        assert(housed_one(scope.ops[i]));
    }
    lemma_housed_rewrite(before, plan.outer.scope, plan.outer.node, inner_scope);
    lemma_housed_at(filled, plan.inner.scope, plan.inner.node);
    lemma_stands_at_exists(filled, plan.inner.scope, plan.inner.node);
    let there = scope_of(filled, plan.inner.scope)->Ok_0;
    let place = there.at(plan.inner.node);
    assert(there.ops[place].node == plan.inner.node);
    let rest = without(there, plan.inner.node);
    assert forall|i: int| 0 <= i < rest.ops.len() implies housed_one(#[trigger] rest.ops[i]) by {
        let from = if i < place {
            i
        } else {
            i + 1
        };
        assert(rest.ops[i] == there.ops[from]);
        assert(housed_one(there.ops[from]));
    }
    lemma_housed_rewrite(filled, plan.inner.scope, plan.inner.node, rest);
}

/// Making escapes is not refused where every content box holds one body, and leaves it so.
proof fn lemma_escaped_stays_housed(root: CircuitModel, plans: Seq<EscapeModel>)
    requires
        root.wf(),
        equipped(root),
        housed(root.ops),
        run_size(root.ops) <= usize::MAX,
        apart(plans),
        forall|p: int| 0 <= p < plans.len() ==> plan_sound(root, #[trigger] plans[p]),
    ensures
        escaped(root, plans).error is None,
        housed(escaped(root, plans).circuit.ops),
    decreases plans.len(),
{
    if plans.len() > 0 {
        let front = plans.drop_last();
        let plan = plans.last();
        assert(plans[plans.len() - 1] == plan);
        assert(plan_sound(root, plan));
        assert forall|p: int| 0 <= p < front.len() implies plan_sound(root, #[trigger] front[p]) by {
            assert(plans[p] == front[p]);
        }
        assert(apart(front)) by {
            assert forall|p: int, q: int| 0 <= p < q < front.len() implies {
                let one = #[trigger] front[p];
                let other = #[trigger] front[q];
                one.outer != other.outer && one.outer != other.inner && one.inner != other.outer
                    && one.inner != other.inner
            } by {
                assert(plans[p] == front[p]);
                assert(plans[q] == front[q]);
            }
        }
        lemma_escaped_stays_housed(root, front);
        lemma_escaped(root, front);
        lemma_takes_part_apart(plans);
        let before = escaped(root, front);
        lemma_housed_at(root, plan.outer.scope, plan.outer.node);
        lemma_housed_at(root, plan.inner.scope, plan.inner.node);
        assert(escape_body(root, plan) is Ok);
        assert(stands_at(before.circuit, plan.outer.scope, plan.outer.node));
        assert(stands_at(before.circuit, plan.inner.scope, plan.inner.node));
        lemma_escape_keeps_housed(root, before.circuit, plan, escape_body(root, plan)->Ok_0);
    }
}

/// Where every content box holds one body, and nothing else more than one, escaping is never refused: it runs until
/// no collector can leave its box.
pub proof fn lemma_escapes_are_not_refused(root: CircuitModel)
    requires
        root.wf(),
        equipped(root),
        housed(root.ops),
        run_size(root.ops) <= usize::MAX,
    ensures
        settled(root).error is None,
        available_escapes(settled(root).circuit) == Ok::<Seq<EscapeModel>, SamplexError>(
            Seq::empty(),
        ),
        housed(settled(root).circuit.ops),
    decreases run_size(root.ops),
{
    lemma_housed_sweeps(root.ops, Seq::empty(), ScopeOrder::Outermost);
    assert(swept(root, Seq::empty(), ScopeOrder::Outermost) is Ok);
    lemma_swept(root, ScopeOrder::Outermost);
    lemma_housed_plans(root, swept(root, Seq::empty(), ScopeOrder::Outermost)->Ok_0);
    assert(available_escapes(root) is Ok);
    let plans = available_escapes(root)->Ok_0;
    lemma_available(root);
    lemma_escaped(root, plans);
    lemma_escaped_stays_housed(root, plans);
    lemma_settled_is_a_fixed_point(root);
    if plans.len() > 0 {
        lemma_escapes_are_not_refused(escaped(root, plans).circuit);
    }
}

// --- Carrying it out ------------------------------------------------------------------------------

/// Move one collector's body into the collector outside its box, and delete it.
///
/// Everything is read before anything is written: the merged body is built while both collectors are still in
/// place.
fn escape(dag: &mut Circuit, plan: &Escape, Ghost(root): Ghost<CircuitModel>) -> (result: Result<
    (),
    SamplexError,
>)
    requires
        root.wf(),
        equipped(root),
        run_size(root.ops) <= usize::MAX,
        plan_sound(root, plan@),
        old(dag)@.wf(),
        equipped(old(dag)@),
        stands_at(old(dag)@, plan@.outer.scope, plan@.outer.node),
        site_instruction(old(dag)@, plan@.outer) == site_instruction(root, plan@.outer),
        stands_at(old(dag)@, plan@.inner.scope, plan@.inner.node),
        site_instruction(old(dag)@, plan@.inner) == site_instruction(root, plan@.inner),
    ensures
        match escape_body(root, plan@) {
            Err(error) => result == Err::<(), SamplexError>(error) && final(dag)@ == old(dag)@,
            Ok(body) => result is Ok && final(dag)@ == deleted(
                refilled(
                    old(dag)@,
                    plan@.outer,
                    at_site(root, plan@.outer).op.collect()->Some_0,
                    body,
                ),
                plan@.inner,
            ),
        },
{
    let ghost before = dag@;
    proof {
        lemma_stands_at_exists(before, plan@.outer.scope, plan@.outer.node);
        lemma_stands_at_exists(before, plan@.inner.scope, plan@.inner.node);
        let outer_scope = scope_of(before, plan@.outer.scope)->Ok_0;
        assert(outer_scope.get(plan@.outer.node).wf(outer_scope.num_qubits, outer_scope.num_clbits));
        let inner_scope = scope_of(before, plan@.inner.scope)->Ok_0;
        assert(inner_scope.get(plan@.inner.node).wf(inner_scope.num_qubits, inner_scope.num_clbits));
        lemma_escape_body(root, plan@);
    }
    let frame = plan.outer.qubits(dag)?;
    let num_clbits = plan.outer.num_clbits(dag)?;
    let spec = match plan.outer.collector(dag)? {
        Some(spec) => spec,
        None => {
            assert(false);
            return Ok(());
        },
    };
    let own = plan.outer.body(dag)?;
    let moved = plan.inner.body(dag)?;
    let ghost said = escape_body(root, plan@)->Ok_0;
    let mut body = new_dag_body(frame.len(), num_clbits, 0);
    proof {
        assert(on_frame(frame@, frame@)) by {
            assert forall|k: int| 0 <= k < frame@.len() implies frame@.contains(
                #[trigger] frame@[k],
            ) by {}
        }
    }
    match plan.direction {
        Direction::Right => {
            contribute(&mut body, own, &frame, &frame, Ghost(num_clbits as nat));
            contribute(&mut body, moved, &plan.wires, &frame, Ghost(num_clbits as nat));
        },
        Direction::Left => {
            contribute(&mut body, moved, &plan.wires, &frame, Ghost(num_clbits as nat));
            contribute(&mut body, own, &frame, &frame, Ghost(num_clbits as nat));
        },
    }
    assert(body@ == said);
    proof {
        lemma_escape(root, before, plan@, said);
        let filled = refilled(
            before,
            plan@.outer,
            at_site(root, plan@.outer).op.collect()->Some_0,
            said,
        );
        lemma_stands_at_exists(filled, plan@.inner.scope, plan@.inner.node);
    }
    plan.outer.substitute(dag, collect_op(spec), body)?;
    plan.inner.remove(dag)?;
    Ok(())
}

/// Append one collector's body, if it has one, to a merged body.
fn contribute(
    out: &mut Circuit,
    contribution: Option<&Circuit>,
    wires: &Vec<usize>,
    frame: &Vec<usize>,
    Ghost(num_clbits): Ghost<nat>,
)
    requires
        open_body(old(out)@, frame@, num_clbits),
        contribution matches Some(body) ==> body@.wf() && body@.num_qubits == wires@.len(),
        on_frame(frame@, wires@),
        frame@.no_duplicates(),
    ensures
        final(out)@ == contributed(
            old(out)@,
            (match contribution {
                Some(body) => Some(body@),
                None => None,
            }),
            wires@,
            frame@,
        ),
        open_body(final(out)@, frame@, num_clbits),
{
    if let Some(body) = contribution {
        append_contribution(out, body, wires, frame, Ghost(num_clbits));
    }
}

/// Let collectors leave their boxes until none can any more.
///
/// Taking one collector out of its box can leave the next level down as its box's new head. Each round plans
/// anew against the rewritten circuit rather than reusing sites.
pub(crate) fn escape_all(dag: &mut Circuit) -> (result: Result<(), SamplexError>)
    requires
        old(dag)@.wf(),
        equipped(old(dag)@),
        run_size(old(dag)@.ops) <= usize::MAX,
    ensures
        final(dag)@ == settled(old(dag)@).circuit,
        match settled(old(dag)@).error {
            Some(error) => result == Err::<(), SamplexError>(error),
            None => result is Ok,
        },
{
    let ghost start = dag@;
    loop
        invariant
            start == old(dag)@,
            dag@.wf(),
            equipped(dag@),
            run_size(dag@.ops) <= usize::MAX,
            settled(dag@) == settled(start),
        decreases run_size(dag@.ops),
    {
        let ghost root = dag@;
        let moved = escape_round(dag)?;
        proof {
            lemma_available(root);
            lemma_escaped(root, available_escapes(root)->Ok_0);
        }
        if !moved {
            return Ok(());
        }
    }
}

/// Do one round of escapes, reporting whether anything moved.
fn escape_round(dag: &mut Circuit) -> (result: Result<bool, SamplexError>)
    requires
        old(dag)@.wf(),
        equipped(old(dag)@),
        run_size(old(dag)@.ops) <= usize::MAX,
    ensures
        match available_escapes(old(dag)@) {
            Err(error) => result == Err::<bool, SamplexError>(error) && final(dag)@ == old(dag)@,
            Ok(plans) => {
                &&& final(dag)@ == escaped(old(dag)@, plans).circuit
                &&& match escaped(old(dag)@, plans).error {
                    Some(error) => result == Err::<bool, SamplexError>(error),
                    None => result == Ok::<bool, SamplexError>(plans.len() > 0),
                }
            },
        },
{
    let ghost root = dag@;
    let plans = plan_escapes(dag)?;
    let ghost said = escapes_model(plans@);
    assert(said.take(0) =~= Seq::<EscapeModel>::empty());
    let mut i: usize = 0;
    while i < plans.len()
        invariant
            i <= plans.len(),
            root == old(dag)@,
            root.wf(),
            equipped(root),
            run_size(root.ops) <= usize::MAX,
            said == escapes_model(plans@),
            available_escapes(root) == Ok::<Seq<EscapeModel>, SamplexError>(said),
            apart(said),
            forall|p: int| 0 <= p < said.len() ==> plan_sound(root, #[trigger] said[p]),
            escaped(root, said.take(i as int)) == (Outcome { circuit: dag@, error: None }),
        decreases plans.len() - i,
    {
        let ghost done = said.take(i as int);
        let ghost more = said.take(i + 1);
        proof {
            assert(said[i as int] == plans@[i as int]@);
            assert(more.drop_last() =~= done);
            assert(more.last() == said[i as int]);
            assert(apart(more)) by {
                assert forall|p: int, q: int| 0 <= p < q < more.len() implies {
                    let one = #[trigger] more[p];
                    let other = #[trigger] more[q];
                    one.outer != other.outer && one.outer != other.inner && one.inner != other.outer
                        && one.inner != other.inner
                } by {
                    assert(said[p] == more[p]);
                    assert(said[q] == more[q]);
                }
            }
            assert(apart(done)) by {
                assert forall|p: int, q: int| 0 <= p < q < done.len() implies {
                    let one = #[trigger] done[p];
                    let other = #[trigger] done[q];
                    one.outer != other.outer && one.outer != other.inner && one.inner != other.outer
                        && one.inner != other.inner
                } by {
                    assert(said[p] == done[p]);
                    assert(said[q] == done[q]);
                }
            }
            assert forall|p: int| 0 <= p < done.len() implies plan_sound(
                root,
                #[trigger] done[p],
            ) by {
                assert(said[p] == done[p]);
            }
            lemma_escaped(root, done);
            lemma_takes_part_apart(more);
            let plan = said[i as int];
            assert(stands_at(dag@, plan.outer.scope, plan.outer.node));
            assert(stands_at(dag@, plan.inner.scope, plan.inner.node));
        }
        match escape(dag, &plans[i], Ghost(root)) {
            Ok(_) => {},
            Err(error) => {
                proof {
                    lemma_escaped_stops(root, said, i + 1);
                }
                return Err(error);
            },
        }
        i += 1;
    }
    assert(said.take(i as int) =~= said);
    Ok(plans.len() > 0)
}

// --- Validity ------------------------------------------------------------------------------------

/// Appending gates and emissions to a body of such leaves a body of such.
proof fn lemma_appended_holds_steps(
    out: CircuitModel,
    run: Seq<InstructionModel>,
    wires: Seq<usize>,
    frame: Seq<usize>,
)
    requires
        holds_steps(out.ops),
        holds_steps(run),
    ensures
        holds_steps(appended(out, run, wires, frame).ops),
    decreases run.len(),
{
    if run.len() > 0 {
        let front = run.drop_last();
        assert(holds_steps(front)) by {
            assert forall|i: int| 0 <= i < front.len() implies (#[trigger] front[i]).op is Gate
                || front[i].op is Emit by {
                assert(run[i] == front[i]);
            }
        }
        lemma_appended_holds_steps(out, front, wires, frame);
        let before = appended(out, front, wires, frame);
        assert(run[run.len() - 1] == run.last());
        lemma_steps_with(
            before,
            next_instruction(
                before,
                run.last().op,
                run.last().params,
                Seq::empty(),
                places_in(frame, through(wires, run.last().qubits)),
                Seq::empty(),
            ),
        );
    }
}

/// Contributing what a collector of a valid circuit holds to a body of gates and emissions leaves a body of such.
pub(crate) proof fn lemma_contributed_holds_steps(
    out: CircuitModel,
    contribution: Option<CircuitModel>,
    wires: Seq<usize>,
    frame: Seq<usize>,
)
    requires
        holds_steps(out.ops),
        contribution matches Some(body) ==> holds_steps(body.ops),
    ensures
        holds_steps(contributed(out, contribution, wires, frame).ops),
{
    if let Some(body) = contribution {
        lemma_appended_holds_steps(out, body.ops, wires, frame);
    }
}

/// Making one escape keeps a circuit valid.
proof fn lemma_escape_keeps_valid(
    root: CircuitModel,
    before: CircuitModel,
    plan: EscapeModel,
    body: CircuitModel,
)
    requires
        root.wf(),
        equipped(root),
        run_size(root.ops) <= usize::MAX,
        plan_sound(root, plan),
        escape_body(root, plan) == Ok::<CircuitModel, SamplexError>(body),
        before.wf(),
        valid(before),
        stands_at(before, plan.outer.scope, plan.outer.node),
        site_instruction(before, plan.outer) == site_instruction(root, plan.outer),
        stands_at(before, plan.inner.scope, plan.inner.node),
        site_instruction(before, plan.inner) == site_instruction(root, plan.inner),
    ensures
        valid(
            deleted(
                refilled(before, plan.outer, at_site(root, plan.outer).op.collect()->Some_0, body),
                plan.inner,
            ),
        ),
{
    let collect = at_site(root, plan.outer).op.collect()->Some_0;
    let filled = refilled(before, plan.outer, collect, body);
    lemma_valid_is_equipped(before);
    lemma_escape(root, before, plan, body);
    lemma_valid_at(before, plan.outer.scope, plan.outer.node);
    lemma_valid_at(before, plan.inner.scope, plan.inner.node);
    let outer = at_site(root, plan.outer);
    let inner = at_site(root, plan.inner);
    let own = body_of(outer)->Ok_0;
    let moved = body_of(inner)->Ok_0;
    let frame = outer.qubits;
    let empty = CircuitModel::bare(frame.len(), outer.clbits.len());
    let (first, first_wires, second, second_wires) = match plan.direction {
        Direction::Right => (own, frame, moved, plan.wires),
        Direction::Left => (moved, plan.wires, own, frame),
    };
    lemma_contributed_holds_steps(empty, first, first_wires, frame);
    lemma_contributed_holds_steps(
        contributed(empty, first, first_wires, frame),
        second,
        second_wires,
        frame,
    );
    assert(holds_steps(body.ops));
    lemma_stands_at_exists(before, plan.outer.scope, plan.outer.node);
    lemma_scope_wf(before, plan.outer.scope);
    let scope = scope_of(before, plan.outer.scope)->Ok_0;
    assert(scope.get(plan.outer.node) == outer);
    lemma_valid_refilled(scope, plan.outer.node, collect, body);
    lemma_valid_rewrite(
        before,
        plan.outer.scope,
        plan.outer.node,
        with_op(scope, plan.outer.node, collect_box(collect), body),
    );
    lemma_stands_at_exists(filled, plan.inner.scope, plan.inner.node);
    lemma_scope_wf(filled, plan.inner.scope);
    lemma_valid_at(filled, plan.inner.scope, plan.inner.node);
    let there = scope_of(filled, plan.inner.scope)->Ok_0;
    lemma_valid_without(there, plan.inner.node);
    lemma_valid_rewrite(
        filled,
        plan.inner.scope,
        plan.inner.node,
        without(there, plan.inner.node),
    );
}

/// Making escapes keeps a circuit valid.
proof fn lemma_escaped_stays_valid(root: CircuitModel, plans: Seq<EscapeModel>)
    requires
        root.wf(),
        valid(root),
        run_size(root.ops) <= usize::MAX,
        apart(plans),
        forall|p: int| 0 <= p < plans.len() ==> plan_sound(root, #[trigger] plans[p]),
    ensures
        valid(escaped(root, plans).circuit),
    decreases plans.len(),
{
    if plans.len() > 0 {
        let front = plans.drop_last();
        let plan = plans.last();
        assert(plans[plans.len() - 1] == plan);
        assert forall|p: int| 0 <= p < front.len() implies plan_sound(root, #[trigger] front[p]) by {
            assert(plans[p] == front[p]);
        }
        assert(apart(front)) by {
            assert forall|p: int, q: int| 0 <= p < q < front.len() implies {
                let one = #[trigger] front[p];
                let other = #[trigger] front[q];
                one.outer != other.outer && one.outer != other.inner && one.inner != other.outer
                    && one.inner != other.inner
            } by {
                assert(plans[p] == front[p]);
                assert(plans[q] == front[q]);
            }
        }
        lemma_valid_is_equipped(root);
        lemma_escaped_stays_valid(root, front);
        lemma_escaped(root, front);
        lemma_takes_part_apart(plans);
        let before = escaped(root, front);
        if before.error is None && escape_body(root, plan) is Ok {
            assert(stands_at(before.circuit, plan.outer.scope, plan.outer.node));
            assert(stands_at(before.circuit, plan.inner.scope, plan.inner.node));
            lemma_escape_keeps_valid(root, before.circuit, plan, escape_body(root, plan)->Ok_0);
        }
    }
}

/// Letting collectors leave their boxes keeps a circuit valid.
pub proof fn lemma_escapes_keep_valid(root: CircuitModel)
    requires
        root.wf(),
        valid(root),
        run_size(root.ops) <= usize::MAX,
    ensures
        valid(settled(root).circuit),
    decreases run_size(root.ops),
{
    lemma_valid_is_equipped(root);
    if available_escapes(root) is Ok {
        let plans = available_escapes(root)->Ok_0;
        lemma_available(root);
        lemma_escaped(root, plans);
        lemma_escaped_stays_valid(root, plans);
        let after = escaped(root, plans);
        if plans.len() > 0 && after.error is None {
            lemma_escapes_keep_valid(after.circuit);
        }
    }
}

// --- What escaping keeps of the order on each wire --------------------------------------------------

/// What a plan was made on: the collector that goes is nested beside the one that stays, and is the first thing on
/// each of its wires.
spec fn plan_close(root: CircuitModel, plan: EscapeModel) -> bool {
    let look = view_from(root, plan.outer, plan.direction);
    &&& nested_collector(look, plan.inner)
    &&& adjacent(look, plan.inner)
    &&& plan.wires == look.wires(plan.inner)
}

proof fn lemma_escapes_close(root: CircuitModel, sites: Seq<SiteModel>)
    requires
        root.wf(),
        forall|k: int|
            0 <= k < sites.len() ==> stands_at(root, (#[trigger] sites[k]).scope, sites[k].node)
                && at_site(root, sites[k]).op.is_collector(),
        escapes_for(root, sites) is Ok,
    ensures
        forall|p: int|
            0 <= p < escapes_for(root, sites)->Ok_0.len() ==> plan_close(
                root,
                #[trigger] escapes_for(root, sites)->Ok_0[p],
            ),
    decreases sites.len(),
{
    if sites.len() > 0 {
        let front = sites.drop_last();
        assert forall|k: int| 0 <= k < front.len() implies stands_at(
            root,
            (#[trigger] front[k]).scope,
            front[k].node,
        ) && at_site(root, front[k]).op.is_collector() by {
            assert(sites[k] == front[k]);
        }
        lemma_escapes_close(root, front);
        let plans = escapes_for(root, front)->Ok_0;
        let outer = sites.last();
        assert(sites[sites.len() - 1] == outer);
        lemma_offer(root, outer, Direction::Left, plans);
        lemma_offer(root, outer, Direction::Right, plans);
        let after = escapes_for(root, sites)->Ok_0;
        if after != plans {
            let plan = after.last();
            assert(after == plans.push(plan));
        }
    }
}

/// What a run appended to a body does there is what it did where it came from.
pub(crate) proof fn lemma_flat_of_appended(
    out: CircuitModel,
    run: Seq<InstructionModel>,
    clbits: nat,
    wires: Seq<usize>,
    frame: Seq<usize>,
    global: Seq<usize>,
)
    requires
        holds_steps(run),
        run_on(run, wires.len(), clbits),
        on_frame(frame, wires),
        frame.len() <= usize::MAX,
    ensures
        flat(appended(out, run, wires, frame).ops, through(global, frame)) == flat(
            out.ops,
            through(global, frame),
        ) + flat(run, through(global, wires)),
    decreases run.len(),
{
    let read = through(global, frame);
    if run.len() == 0 {
        assert(flat(out.ops, read) + Seq::<Step>::empty() =~= flat(out.ops, read));
    } else {
        let front = run.drop_last();
        let inst = run.last();
        let last = run.len() - 1;
        assert(run[last] == inst);
        assert forall|i: int| 0 <= i < front.len() implies (#[trigger] front[i]).wf(
            wires.len(),
            clbits,
        ) by {
            assert(run[i] == front[i]);
        }
        assert forall|i: int| 0 <= i < front.len() implies (#[trigger] front[i]).op is Gate
            || front[i].op is Emit by {
            assert(run[i] == front[i]);
        }
        lemma_flat_of_appended(out, front, clbits, wires, frame, global);
        let before = appended(out, front, wires, frame);
        let placed = appended(out, run, wires, frame).ops.last();
        lemma_flat_push(before.ops, placed, read);
        assert(inst.wf(wires.len(), clbits));
        let from = through(wires, inst.qubits);
        lemma_through_frame(frame, wires, inst.qubits);
        let places = places_in(frame, from);
        assert(through(read, places) =~= through(through(global, wires), inst.qubits)) by {
            assert forall|k: int| 0 <= k < places.len() implies (#[trigger] places[k])
                < frame.len() && read[places[k] as int] == global[from[k] as int] by {
                assert(frame.contains(from[k]));
            }
        }
        assert(flat_of(placed, read) == flat_of(inst, through(global, wires)));
        assert(flat(out.ops, read) + flat(front, through(global, wires)) + flat_of(
            inst,
            through(global, wires),
        ) =~= flat(out.ops, read) + flat(run, through(global, wires)));
    }
}

/// What is contributed to a body does there what it did in the collector it came from.
pub(crate) proof fn lemma_flat_of_contributed(
    out: CircuitModel,
    inst: InstructionModel,
    wires: Seq<usize>,
    frame: Seq<usize>,
    global: Seq<usize>,
    from: Seq<usize>,
)
    requires
        inst.op.is_box(),
        inst.blocks.len() == 1 ==> holds_steps(inst.blocks[0].ops) && inst.blocks[0].wf()
            && inst.blocks[0].num_qubits == wires.len(),
        on_frame(frame, wires),
        frame.len() <= usize::MAX,
        through(global, wires) == through(from, inst.qubits),
    ensures
        flat(
            contributed(
                out,
                if inst.blocks.len() == 1 {
                    Some(inst.blocks[0])
                } else {
                    None
                },
                wires,
                frame,
            ).ops,
            through(global, frame),
        ) == flat(out.ops, through(global, frame)) + flat_of(inst, from),
{
    if inst.blocks.len() == 1 {
        let body = inst.blocks[0];
        lemma_flat_of_appended(out, body.ops, body.num_clbits, wires, frame, global);
    } else {
        assert(flat_of(inst, from) =~= Seq::<Step>::empty());
        let read = through(global, frame);
        assert(flat(out.ops, read) + Seq::<Step>::empty() =~= flat(out.ops, read));
    }
}

/// The body of the collector that stays does what the two collectors did, the one that comes first first.
proof fn lemma_escape_content(
    root: CircuitModel,
    plan: EscapeModel,
    body: CircuitModel,
    frame: Seq<usize>,
)
    requires
        root.wf(),
        valid(root),
        plan_sound(root, plan),
        plan_close(root, plan),
        escape_body(root, plan) == Ok::<CircuitModel, SamplexError>(body),
    ensures
        ({
            let outer = at_site(root, plan.outer);
            let own = flat_of(outer, frame_at(root, plan.outer.scope, frame));
            let moved = flat_of(
                at_site(root, plan.inner),
                frame_at(root, plan.inner.scope, frame),
            );
            flat(body.ops, through(frame_at(root, plan.outer.scope, frame), outer.qubits))
                == match plan.direction {
                Direction::Right => own + moved,
                Direction::Left => moved + own,
            }
        }),
{
    let outer = at_site(root, plan.outer);
    let inner = at_site(root, plan.inner);
    let look = view_from(root, plan.outer, plan.direction);
    let out_frame = frame_at(root, plan.outer.scope, frame);
    let in_frame = frame_at(root, plan.inner.scope, frame);
    lemma_stands_at_exists(root, plan.outer.scope, plan.outer.node);
    lemma_stands_at_exists(root, plan.inner.scope, plan.inner.node);
    let outer_scope = scope_of(root, plan.outer.scope)->Ok_0;
    let inner_scope = scope_of(root, plan.inner.scope)->Ok_0;
    assert(outer_scope.get(plan.outer.node).wf(outer_scope.num_qubits, outer_scope.num_clbits));
    assert(inner_scope.get(plan.inner.node).wf(inner_scope.num_qubits, inner_scope.num_clbits));
    lemma_valid_at(root, plan.outer.scope, plan.outer.node);
    lemma_valid_at(root, plan.inner.scope, plan.inner.node);
    let below = plan.inner.scope.skip(plan.outer.scope.len() as int);
    assert(plan.inner.scope =~= plan.outer.scope + below);
    lemma_frame_at_below(root, plan.outer.scope, plan.outer.node, below, frame);
    lemma_lifted_frame(outer_scope, below, inner.qubits, out_frame);
    assert(through(out_frame, plan.wires) == through(in_frame, inner.qubits));
    let wires = outer.qubits;
    assert(on_frame(wires, wires)) by {
        assert forall|k: int| 0 <= k < wires.len() implies wires.contains(#[trigger] wires[k]) by {}
    }
    let empty = CircuitModel::bare(wires.len(), outer.clbits.len());
    let read = through(out_frame, wires);
    assert(flat(empty.ops, read) =~= Seq::<Step>::empty());
    let own = body_of(outer)->Ok_0;
    let moved = body_of(inner)->Ok_0;
    let own_steps = flat_of(outer, out_frame);
    let moved_steps = flat_of(inner, in_frame);
    match plan.direction {
        Direction::Right => {
            let first = contributed(empty, own, wires, wires);
            lemma_flat_of_contributed(empty, outer, wires, wires, out_frame, out_frame);
            lemma_flat_of_contributed(first, inner, plan.wires, wires, out_frame, in_frame);
            assert(Seq::<Step>::empty() + own_steps + moved_steps =~= own_steps + moved_steps);
        },
        Direction::Left => {
            let first = contributed(empty, moved, plan.wires, wires);
            lemma_flat_of_contributed(empty, inner, plan.wires, wires, out_frame, in_frame);
            lemma_flat_of_contributed(first, outer, wires, wires, out_frame, out_frame);
            assert(Seq::<Step>::empty() + moved_steps + own_steps =~= moved_steps + own_steps);
        },
    }
}

/// Whether one collector's bead, wherever it is, has another's next to it on the near side.
spec fn beside(beads: Seq<Bead>, outer: SiteModel, inner: SiteModel, direction: Direction) -> bool {
    forall|i: int|
        0 <= i < beads.len() && (#[trigger] beads[i]).stop == Ahead::At(inner) ==> match direction {
            Direction::Right => i > 0 && beads[i - 1].stop == Ahead::At(outer),
            Direction::Left => i + 1 < beads.len() && beads[i + 1].stop == Ahead::At(outer),
        }
}

/// Seen from the collector that stays, the one that goes is the first thing on every wire it meets.
proof fn lemma_plan_first(root: CircuitModel, plan: EscapeModel, v: usize, k: int)
    requires
        root.wf(),
        plan_sound(root, plan),
        plan_close(root, plan),
        ({
            let run = along(scope_of(root, plan.outer.scope)->Ok_0.ops, plan.outer.scope, v);
            0 <= k < run.len() && run[k] == Ahead::At(plan.inner)
        }),
    ensures
        ({
            let scope = scope_of(root, plan.outer.scope)->Ok_0;
            let at = scope.at(plan.outer.node);
            let ahead = past(scope, plan.outer.scope, at, v, plan.direction);
            &&& scope.ops[at].touches(v)
            &&& ahead.len() > 0
            &&& ahead[0] == Ahead::At(plan.inner)
        }),
{
    let outer = plan.outer;
    let inner = plan.inner;
    let look = view_from(root, outer, plan.direction);
    lemma_outlook(look);
    let scope = look.scope();
    let below = inner.scope.skip(outer.scope.len() as int);
    assert(inner.scope =~= outer.scope + below);
    let count = scope.ops.len() as int;
    assert(scope.ops.take(count) =~= scope.ops);
    lemma_run_stands(scope, outer.scope, count, v);
    assert(stands_on(scope, below, inner.node, v));
    lemma_stands_on_exists(scope, below, inner.node, v);
    lemma_stands_on_lifts(scope, below, inner.node, v);
    lemma_scope_of_concat(root, outer.scope, below);
    assert(at_site(root, inner) == scope_of(scope, below)->Ok_0.get(inner.node));
    assert(look.wires(inner).contains(v));
    let m = look.wires(inner).index_of(v);
    assert(look.wires(inner)[m] == v);
    assert(look.qubits.contains(v));
    assert(first_stop(look, v) == Ok::<Option<SiteModel>, SamplexError>(Some(inner)));
    assert(look.front(v) == past(scope, outer.scope, scope.at(outer.node), v, plan.direction));
}

/// On every wire of a scope, a collector that leaves its box stands next to the one of the scope it folds into.
proof fn lemma_plan_neighbours(
    root: CircuitModel,
    plan: EscapeModel,
    down: Seq<usize>,
    v: usize,
    k: int,
) -> (m: int)
    requires
        root.wf(),
        plan_sound(root, plan),
        plan_close(root, plan),
        ({
            let here = strung(
                scope_of(root, plan.outer.scope)->Ok_0.ops,
                plan.outer.scope,
                down,
                Some(v),
            );
            0 <= k < here.len() && here[k].stop == Ahead::At(plan.inner)
        }),
    ensures
        ({
            let here = strung(
                scope_of(root, plan.outer.scope)->Ok_0.ops,
                plan.outer.scope,
                down,
                Some(v),
            );
            let next = match plan.direction {
                Direction::Right => m + 1,
                Direction::Left => m - 1,
            };
            &&& 0 <= m < here.len()
            &&& here[m].stop == Ahead::At(plan.outer)
            &&& 0 <= next < here.len()
            &&& here[next].stop == Ahead::At(plan.inner)
        }),
{
    let outer = plan.outer;
    lemma_stands_at_exists(root, outer.scope, outer.node);
    lemma_stands_at_inside(root, outer.scope, outer.node);
    let scope = scope_of(root, outer.scope)->Ok_0;
    let here = strung(scope.ops, outer.scope, down, Some(v));
    lemma_beads_follow_the_wire(scope.ops, outer.scope, down, v);
    lemma_plan_first(root, plan, v, k);
    let at = scope.at(outer.node);
    let inst = scope.ops[at];
    assert(inst.node == outer.node);
    let left = strung(scope.ops.take(at), outer.scope, down, Some(v));
    let own = strung_of(inst, outer.scope, down, Some(v));
    let right = strung(scope.ops.skip(at + 1), outer.scope, down, Some(v));
    lemma_strung_split(scope.ops, at, outer.scope, down, Some(v));
    assert(own.len() == 1 && own[0].stop == Ahead::At(outer));
    let m = left.len() as int;
    assert(here[m] == own[0]);
    match plan.direction {
        Direction::Right => {
            lemma_beads_follow_the_wire(scope.ops.skip(at + 1), outer.scope, down, v);
            assert(right[0].stop == Ahead::At(plan.inner));
            assert(here[m + 1] == right[0]);
        },
        Direction::Left => {
            lemma_beads_follow_the_wire(scope.ops.take(at), outer.scope, down, v);
            let run = along(scope.ops.take(at), outer.scope, v);
            assert(run.reverse()[0] == run[run.len() - 1]);
            assert(left[m - 1].stop == Ahead::At(plan.inner));
            assert(here[m - 1] == left[m - 1]);
        },
    }
    m
}

/// On every wire of the circuit, a collector that leaves its box stands next to the one it folds into.
proof fn lemma_plan_beside(root: CircuitModel, plan: EscapeModel, frame: Seq<usize>, w: usize)
    requires
        root.wf(),
        plan_sound(root, plan),
        plan_close(root, plan),
        tells_apart(frame, root.num_qubits),
        w < root.num_qubits,
    ensures
        beside(
            strung(root.ops, Seq::empty(), frame, Some(w)),
            plan.outer,
            plan.inner,
            plan.direction,
        ),
{
    let none = Seq::<usize>::empty();
    let beads = strung(root.ops, none, frame, Some(w));
    let outer = plan.outer;
    let inner = plan.inner;
    lemma_beads_single(root, 0, root.ops.len() as int, none, frame, Some(w));
    assert(root.ops.subrange(0, root.ops.len() as int) =~= root.ops);
    assert forall|i: int|
        0 <= i < beads.len() && (#[trigger] beads[i]).stop == Ahead::At(inner) implies match plan.direction {
        Direction::Right => i > 0 && beads[i - 1].stop == Ahead::At(outer),
        Direction::Left => i + 1 < beads.len() && beads[i + 1].stop == Ahead::At(outer),
    } by {
        assert(none + outer.scope =~= outer.scope);
        let a = lemma_descend(root, none, outer.scope, outer.node, frame, Some(w), inner, i);
        let down = frame_at(root, outer.scope, frame);
        lemma_frame_at(root, outer.scope, outer.node, frame, Some(w));
        let v = wire_at(root, outer.scope, Some(w))->Some_0;
        let here = strung(scope_of(root, outer.scope)->Ok_0.ops, outer.scope, down, Some(v));
        assert(here[i - a] == beads.subrange(a, a + here.len())[i - a]);
        let m = lemma_plan_neighbours(root, plan, down, v, i - a);
        let next = match plan.direction {
            Direction::Right => m + 1,
            Direction::Left => m - 1,
        };
        assert(beads[a + m] == beads.subrange(a, a + here.len())[m]);
        assert(beads[a + next] == beads.subrange(a, a + here.len())[next]);
        if i < a + next {
            assert(beads[i].stop != beads[a + next].stop);
        } else if a + next < i {
            assert(beads[a + next].stop != beads[i].stop);
        }
    }
}

/// Changing the bead of another site leaves two beads that are next to each other so, and every other bead as it was.
proof fn lemma_patch_elsewhere(beads: Seq<Bead>, site: SiteModel, put: Seq<Bead>)
    requires
        single(beads),
        put.len() <= 1,
        put.len() == 1 ==> put[0].stop == Ahead::At(site),
    ensures
        forall|outer: SiteModel, inner: SiteModel, direction: Direction|
            outer != site && inner != site && #[trigger] beside(beads, outer, inner, direction)
                ==> beside(patched(beads, site, put), outer, inner, direction),
        forall|bead: Bead|
            bead.stop != Ahead::At(site) ==> (#[trigger] patched(beads, site, put).contains(bead)
                <==> beads.contains(bead)),
        absent(beads, site) ==> patched(beads, site, put) == beads,
{
    if absent(beads, site) {
        lemma_patched_absent(beads, site, put);
    } else {
        let a = choose|a: int|
            0 <= a < beads.len() && (#[trigger] beads[a]).stop == Ahead::At(site);
        lemma_patched_at(beads, site, put, a);
        let after = patched(beads, site, put);
        let shift = put.len() - 1;
        assert forall|i: int| 0 <= i < a implies #[trigger] after[i] == beads[i] by {}
        assert forall|i: int| a < i < beads.len() implies after[i + shift] == #[trigger] beads[i] by {
            assert(beads.skip(a + 1)[i - a - 1] == beads[i]);
        }
        assert forall|outer: SiteModel, inner: SiteModel, direction: Direction|
            outer != site && inner != site && #[trigger] beside(
                beads,
                outer,
                inner,
                direction,
            ) implies beside(after, outer, inner, direction) by {
            assert forall|i: int|
                0 <= i < after.len() && (#[trigger] after[i]).stop == Ahead::At(
                    inner,
                ) implies match direction {
                Direction::Right => i > 0 && after[i - 1].stop == Ahead::At(outer),
                Direction::Left => i + 1 < after.len() && after[i + 1].stop == Ahead::At(outer),
            } by {
                let from = if i < a {
                    i
                } else {
                    i - shift
                };
                if a <= i < a + put.len() {
                    assert(after[i] == put[i - a]);
                }
                assert(beads[from] == after[i]);
                match direction {
                    Direction::Right => {
                        assert(beads[from - 1].stop == Ahead::At(outer));
                        assert(from - 1 != a);
                        assert(after[i - 1] == beads[from - 1]);
                    },
                    Direction::Left => {
                        assert(beads[from + 1].stop == Ahead::At(outer));
                        assert(from + 1 != a);
                        assert(after[i + 1] == beads[from + 1]);
                    },
                }
            }
        }
        assert forall|bead: Bead| bead.stop != Ahead::At(site) implies (
        #[trigger] after.contains(bead) <==> beads.contains(bead)) by {
            if after.contains(bead) {
                let i = after.index_of(bead);
                assert(after[i] == bead);
                if i < a {
                    assert(beads[i] == bead);
                } else if i >= a + put.len() {
                    assert(beads[i - shift] == after[i]);
                } else {
                    assert(after[i] == put[i - a]);
                }
            }
            if beads.contains(bead) {
                let i = beads.index_of(bead);
                assert(beads[i] == bead);
                if i < a {
                    assert(after[i] == bead);
                } else {
                    assert(i != a);
                    assert(after[i + shift] == beads[i]);
                }
            }
        }
    }
}

/// Folding one bead into the one next to it changes nothing of what the beads take, end to end.
proof fn lemma_fold(
    beads: Seq<Bead>,
    outer: SiteModel,
    inner: SiteModel,
    direction: Direction,
    own: Seq<Step>,
    moved: Seq<Step>,
)
    requires
        single(beads),
        outer != inner,
        beside(beads, outer, inner, direction),
        absent(beads, inner) ==> moved.len() == 0,
        !absent(beads, inner) ==> beads.contains(Bead { stop: Ahead::At(inner), steps: moved }),
        !absent(beads, outer) ==> beads.contains(Bead { stop: Ahead::At(outer), steps: own }),
        single(
            patched(
                beads,
                outer,
                seq![
                    Bead {
                        stop: Ahead::At(outer),
                        steps: match direction {
                            Direction::Right => own + moved,
                            Direction::Left => moved + own,
                        },
                    },
                ],
            ),
        ),
    ensures
        joined(
            patched(
                patched(
                    beads,
                    outer,
                    seq![
                        Bead {
                            stop: Ahead::At(outer),
                            steps: match direction {
                                Direction::Right => own + moved,
                                Direction::Left => moved + own,
                            },
                        },
                    ],
                ),
                inner,
                Seq::empty(),
            ),
        ) == joined(beads),
{
    let steps = match direction {
        Direction::Right => own + moved,
        Direction::Left => moved + own,
    };
    let full = Bead { stop: Ahead::At(outer), steps };
    let put = seq![full];
    let none = Seq::<Bead>::empty();
    let filled = patched(beads, outer, put);
    if absent(beads, outer) {
        assert(absent(beads, inner)) by {
            assert forall|i: int| 0 <= i < beads.len() implies (#[trigger] beads[i]).stop
                != Ahead::At(inner) by {
                if beads[i].stop == Ahead::At(inner) {
                    match direction {
                        Direction::Right => {
                            assert(beads[i - 1].stop == Ahead::At(outer));
                        },
                        Direction::Left => {
                            assert(beads[i + 1].stop == Ahead::At(outer));
                        },
                    }
                }
            }
        }
        lemma_patched_absent(beads, outer, put);
        lemma_patched_absent(beads, inner, none);
    } else {
        let old = Bead { stop: Ahead::At(outer), steps: own };
        let a = beads.index_of(old);
        assert(beads[a] == old);
        lemma_patched_at(beads, outer, put, a);
        let before = beads.take(a);
        let after = beads.skip(a + 1);
        assert(filled == before + put + after);
        lemma_joined_add(before + put, after);
        lemma_joined_add(before, put);
        lemma_joined_one(full);
        let one = seq![old];
        assert(beads =~= before + one + after);
        lemma_joined_add(before + one, after);
        lemma_joined_add(before, one);
        lemma_joined_one(old);
        if absent(beads, inner) {
            assert(absent(filled, inner)) by {
                lemma_patch_elsewhere(beads, outer, put);
                assert forall|i: int| 0 <= i < filled.len() implies (#[trigger] filled[i]).stop
                    != Ahead::At(inner) by {
                    if filled[i].stop == Ahead::At(inner) {
                        assert(filled.contains(filled[i]));
                        let k = beads.index_of(filled[i]);
                        assert(beads.contains(filled[i]));
                        assert(beads[k] == filled[i]);
                    }
                }
            }
            lemma_patched_absent(filled, inner, none);
            assert(steps =~= own);
        } else {
            let gone = Bead { stop: Ahead::At(inner), steps: moved };
            let i = beads.index_of(gone);
            assert(beads[i] == gone);
            match direction {
                Direction::Right => {
                    assert(beads[i - 1].stop == Ahead::At(outer));
                    if i - 1 < a {
                        assert(beads[i - 1].stop != beads[a].stop);
                    } else if a < i - 1 {
                        assert(beads[a].stop != beads[i - 1].stop);
                    }
                    assert(i == a + 1);
                    assert(after[0] == gone);
                    let rest = after.skip(1);
                    assert(filled[a + 1] == gone);
                    lemma_patched_at(filled, inner, none, a + 1);
                    assert(filled.take(a + 1) =~= before + put);
                    assert(filled.skip(a + 2) =~= rest);
                    assert(before + put + none + rest =~= (before + put) + rest);
                    lemma_joined_add(before + put, rest);
                    assert(after =~= seq![gone] + rest);
                    lemma_joined_add(seq![gone], rest);
                    lemma_joined_one(gone);
                    assert(joined(before) + (own + moved) + joined(rest) =~= joined(before) + own + (
                    moved + joined(rest)));
                },
                Direction::Left => {
                    assert(beads[i + 1].stop == Ahead::At(outer));
                    if i + 1 < a {
                        assert(beads[i + 1].stop != beads[a].stop);
                    } else if a < i + 1 {
                        assert(beads[a].stop != beads[i + 1].stop);
                    }
                    assert(i == a - 1);
                    let start = before.take(i);
                    assert(filled[i] == gone);
                    lemma_patched_at(filled, inner, none, i);
                    assert(filled.take(i) =~= start);
                    assert(filled.skip(a) =~= put + after);
                    assert(start + none + (put + after) =~= start + (put + after));
                    lemma_joined_add(start, put + after);
                    lemma_joined_add(put, after);
                    assert(before =~= start + seq![gone]);
                    lemma_joined_add(start, seq![gone]);
                    lemma_joined_one(gone);
                    assert(joined(start) + (moved + own + joined(after)) =~= joined(start) + moved + own
                        + joined(after));
                },
            }
        }
    }
}

/// The beads of a wire of a whole circuit.
spec fn beads_on(circuit: CircuitModel, w: usize) -> Seq<Bead> {
    strung(circuit.ops, Seq::empty(), own_qubits(circuit.num_qubits), Some(w))
}

proof fn lemma_beads_on_single(circuit: CircuitModel, w: usize)
    requires
        circuit.wf(),
    ensures
        single(beads_on(circuit, w)),
{
    let count = circuit.ops.len() as int;
    lemma_beads_single(
        circuit,
        0,
        count,
        Seq::empty(),
        own_qubits(circuit.num_qubits),
        Some(w),
    );
    assert(circuit.ops.subrange(0, count) =~= circuit.ops);
}

/// One escape changes nothing of what is done on a wire.
proof fn lemma_escape_keeps_wire(
    root: CircuitModel,
    before: CircuitModel,
    plan: EscapeModel,
    body: CircuitModel,
    w: usize,
)
    requires
        root.wf(),
        valid(root),
        run_size(root.ops) <= usize::MAX,
        root.num_qubits <= usize::MAX,
        plan_sound(root, plan),
        plan_close(root, plan),
        escape_body(root, plan) == Ok::<CircuitModel, SamplexError>(body),
        before.wf(),
        equipped(before),
        before.num_qubits == root.num_qubits,
        stands_at(before, plan.outer.scope, plan.outer.node),
        site_instruction(before, plan.outer) == site_instruction(root, plan.outer),
        stands_at(before, plan.inner.scope, plan.inner.node),
        site_instruction(before, plan.inner) == site_instruction(root, plan.inner),
        frame_at(before, plan.outer.scope, own_qubits(root.num_qubits)) == frame_at(
            root,
            plan.outer.scope,
            own_qubits(root.num_qubits),
        ),
        frame_at(before, plan.inner.scope, own_qubits(root.num_qubits)) == frame_at(
            root,
            plan.inner.scope,
            own_qubits(root.num_qubits),
        ),
        w < root.num_qubits,
        beside(beads_on(before, w), plan.outer, plan.inner, plan.direction),
    ensures
        ({
            let after = deleted(
                refilled(before, plan.outer, at_site(root, plan.outer).op.collect()->Some_0, body),
                plan.inner,
            );
            &&& joined(beads_on(after, w)) == joined(beads_on(before, w))
            &&& forall|outer: SiteModel, inner: SiteModel, direction: Direction|
                outer != plan.outer && outer != plan.inner && inner != plan.outer && inner
                    != plan.inner && #[trigger] beside(beads_on(before, w), outer, inner, direction)
                    ==> beside(beads_on(after, w), outer, inner, direction)
        }),
{
    let frame = own_qubits(root.num_qubits);
    let collect = at_site(root, plan.outer).op.collect()->Some_0;
    let op = collect_box(collect);
    let filled = refilled(before, plan.outer, collect, body);
    let after = deleted(filled, plan.inner);
    let none = Seq::<usize>::empty();
    lemma_own_apart(root.num_qubits);
    lemma_valid_is_equipped(root);
    lemma_escape(root, before, plan, body);
    let outer = at_site(root, plan.outer);
    let inner = at_site(root, plan.inner);
    let own_steps = flat_of(outer, frame_at(root, plan.outer.scope, frame));
    let moved_steps = flat_of(inner, frame_at(root, plan.inner.scope, frame));
    let own = on_qubit(own_steps, w);
    let moved = on_qubit(moved_steps, w);
    lemma_escape_content(root, plan, body, frame);
    lemma_on_qubit_add(own_steps, moved_steps, w);
    lemma_on_qubit_add(moved_steps, own_steps, w);
    let beads = beads_on(before, w);
    assert(op.collect() == Some(collect));
    lemma_stands_at_exists(before, plan.outer.scope, plan.outer.node);
    assert(scope_of(before, plan.outer.scope)->Ok_0.get(plan.outer.node) == outer);
    lemma_beads_of_refill(before, plan.outer, op, body, frame, Some(w));
    let put = seq![
        Bead {
            stop: Ahead::At(plan.outer),
            steps: match plan.direction {
                Direction::Right => own + moved,
                Direction::Left => moved + own,
            },
        },
    ];
    assert(filled.num_qubits == before.num_qubits) by {
        let scope = scope_of(before, plan.outer.scope)->Ok_0;
        lemma_escape_body(root, plan);
        lemma_with_op(scope, plan.outer.node, op, body);
        lemma_rewrite(
            before,
            plan.outer.scope,
            plan.outer.node,
            with_op(scope, plan.outer.node, op, body),
        );
    }
    assert(beads_on(filled, w) == patched(beads, plan.outer, put));
    lemma_beads_of_removal(filled, plan.inner, frame, Some(w));
    assert(beads_on(after, w) == patched(beads_on(filled, w), plan.inner, Seq::empty()));
    lemma_beads_on_single(before, w);
    lemma_beads_on_single(filled, w);
    lemma_stands_at_exists(before, plan.inner.scope, plan.inner.node);
    assert(none + plan.outer.scope =~= plan.outer.scope);
    assert(none + plan.inner.scope =~= plan.inner.scope);
    lemma_bead_of_site(before, none, plan.outer.scope, plan.outer.node, frame, Some(w));
    lemma_bead_of_site(before, none, plan.inner.scope, plan.inner.node, frame, Some(w));
    lemma_present(beads, plan.outer, own);
    lemma_present(beads, plan.inner, moved);
    lemma_fold(beads, plan.outer, plan.inner, plan.direction, own, moved);
    lemma_patch_elsewhere(beads, plan.outer, put);
    lemma_patch_elsewhere(beads_on(filled, w), plan.inner, Seq::empty());
    assert forall|o: SiteModel, i: SiteModel, direction: Direction|
        o != plan.outer && o != plan.inner && i != plan.outer && i != plan.inner && #[trigger] beside(
            beads,
            o,
            i,
            direction,
        ) implies beside(beads_on(after, w), o, i, direction) by {
        assert(beside(beads_on(filled, w), o, i, direction));
    }
}

proof fn lemma_present(beads: Seq<Bead>, site: SiteModel, steps: Seq<Step>)
    ensures
        beads.contains(Bead { stop: Ahead::At(site), steps }) ==> !absent(beads, site),
{
    let bead = Bead { stop: Ahead::At(site), steps };
    if beads.contains(bead) {
        let k = beads.index_of(bead);
        assert(beads[k].stop == Ahead::At(site));
    }
}

/// One escape leaves the frame of every other site's scope as it was.
proof fn lemma_escape_keeps_frames(
    root: CircuitModel,
    before: CircuitModel,
    plan: EscapeModel,
    body: CircuitModel,
    other: SiteModel,
    frame: Seq<usize>,
)
    requires
        root.wf(),
        equipped(root),
        run_size(root.ops) <= usize::MAX,
        plan_sound(root, plan),
        escape_body(root, plan) == Ok::<CircuitModel, SamplexError>(body),
        before.wf(),
        equipped(before),
        stands_at(before, plan.outer.scope, plan.outer.node),
        site_instruction(before, plan.outer) == site_instruction(root, plan.outer),
        stands_at(before, plan.inner.scope, plan.inner.node),
        site_instruction(before, plan.inner) == site_instruction(root, plan.inner),
        stands_at(before, other.scope, other.node),
        other != plan.outer,
        other != plan.inner,
    ensures
        frame_at(
            deleted(
                refilled(before, plan.outer, at_site(root, plan.outer).op.collect()->Some_0, body),
                plan.inner,
            ),
            other.scope,
            frame,
        ) == frame_at(before, other.scope, frame),
{
    let collect = at_site(root, plan.outer).op.collect()->Some_0;
    let op = collect_box(collect);
    let filled = refilled(before, plan.outer, collect, body);
    lemma_escape(root, before, plan, body);
    lemma_escape_body(root, plan);
    lemma_stands_at_exists(before, plan.outer.scope, plan.outer.node);
    let scope = scope_of(before, plan.outer.scope)->Ok_0;
    let with = with_op(scope, plan.outer.node, op, body);
    lemma_with_op(scope, plan.outer.node, op, body);
    lemma_frame_kept(
        before,
        plan.outer.scope,
        plan.outer.node,
        with,
        other.scope,
        other.node,
        frame,
    );
    lemma_rewrite_elsewhere(
        before,
        plan.outer.scope,
        plan.outer.node,
        with,
        other.scope,
        other.node,
    );
    lemma_stands_at_exists(filled, plan.inner.scope, plan.inner.node);
    let there = scope_of(filled, plan.inner.scope)->Ok_0;
    lemma_without(there, plan.inner.node);
    lemma_frame_kept(
        filled,
        plan.inner.scope,
        plan.inner.node,
        without(there, plan.inner.node),
        other.scope,
        other.node,
        frame,
    );
}

/// A round of escapes changes nothing of what is done on a wire.
proof fn lemma_escaped_keeps_wire(root: CircuitModel, plans: Seq<EscapeModel>, w: usize)
    requires
        root.wf(),
        valid(root),
        run_size(root.ops) <= usize::MAX,
        root.num_qubits <= usize::MAX,
        apart(plans),
        forall|p: int|
            0 <= p < plans.len() ==> plan_sound(root, #[trigger] plans[p]) && plan_close(
                root,
                plans[p],
            ),
        w < root.num_qubits,
    ensures
        ({
            let after = escaped(root, plans).circuit;
            let frame = own_qubits(root.num_qubits);
            &&& joined(beads_on(after, w)) == joined(beads_on(root, w))
            &&& forall|outer: SiteModel, inner: SiteModel, direction: Direction|
                !takes_part(plans, outer) && !takes_part(plans, inner) && #[trigger] beside(
                    beads_on(root, w),
                    outer,
                    inner,
                    direction,
                ) ==> beside(beads_on(after, w), outer, inner, direction)
            &&& forall|other: SiteModel|
                #![trigger stands_at(root, other.scope, other.node)]
                stands_at(root, other.scope, other.node) && !takes_part(plans, other) ==> frame_at(
                    after,
                    other.scope,
                    frame,
                ) == frame_at(root, other.scope, frame)
        }),
    decreases plans.len(),
{
    if plans.len() > 0 {
        let frame = own_qubits(root.num_qubits);
        let front = plans.drop_last();
        let plan = plans.last();
        let last = plans.len() - 1;
        assert(plans[last] == plan);
        assert(plan_sound(root, plans[last]) && plan_close(root, plans[last]));
        assert forall|p: int| 0 <= p < front.len() implies plan_sound(root, #[trigger] front[p])
            && plan_close(root, front[p]) by {
            assert(plans[p] == front[p]);
        }
        assert(apart(front)) by {
            assert forall|p: int, q: int| 0 <= p < q < front.len() implies {
                let one = #[trigger] front[p];
                let other = #[trigger] front[q];
                one.outer != other.outer && one.outer != other.inner && one.inner != other.outer
                    && one.inner != other.inner
            } by {
                assert(plans[p] == front[p]);
                assert(plans[q] == front[q]);
            }
        }
        lemma_escaped_keeps_wire(root, front, w);
        lemma_valid_is_equipped(root);
        lemma_escaped(root, front);
        lemma_takes_part_apart(plans);
        lemma_plan_beside_on(root, plan, w);
        assert forall|other: SiteModel| #[trigger] takes_part(front, other) implies takes_part(
            plans,
            other,
        ) by {
            let p = choose|p: int|
                0 <= p < front.len() && ((#[trigger] front[p]).outer == other || front[p].inner
                    == other);
            assert(plans[p] == front[p]);
        }
        assert(takes_part(plans, plan.outer) && takes_part(plans, plan.inner));
        let before = escaped(root, front);
        if before.error is None && escape_body(root, plan) is Ok {
            let body = escape_body(root, plan)->Ok_0;
            assert(stands_at(before.circuit, plan.outer.scope, plan.outer.node));
            assert(stands_at(before.circuit, plan.inner.scope, plan.inner.node));
            assert(stands_at(root, plan.outer.scope, plan.outer.node));
            assert(stands_at(root, plan.inner.scope, plan.inner.node));
            lemma_escape_keeps_wire(root, before.circuit, plan, body, w);
            let after = escaped(root, plans).circuit;
            assert forall|other: SiteModel|
                #![trigger stands_at(root, other.scope, other.node)]
                stands_at(root, other.scope, other.node) && !takes_part(
                    plans,
                    other,
                ) implies frame_at(after, other.scope, frame) == frame_at(root, other.scope, frame) by {
                assert(!takes_part(front, other));
                assert(stands_at(before.circuit, other.scope, other.node));
                lemma_escape_keeps_frames(root, before.circuit, plan, body, other, frame);
            }
            assert forall|outer: SiteModel, inner: SiteModel, direction: Direction|
                !takes_part(plans, outer) && !takes_part(plans, inner) && #[trigger] beside(
                    beads_on(root, w),
                    outer,
                    inner,
                    direction,
                ) implies beside(beads_on(after, w), outer, inner, direction) by {
                assert(!takes_part(front, outer) && !takes_part(front, inner));
                assert(beside(beads_on(before.circuit, w), outer, inner, direction));
            }
        }
    }
}

proof fn lemma_plan_beside_on(root: CircuitModel, plan: EscapeModel, w: usize)
    requires
        root.wf(),
        root.num_qubits <= usize::MAX,
        plan_sound(root, plan),
        plan_close(root, plan),
        w < root.num_qubits,
    ensures
        beside(beads_on(root, w), plan.outer, plan.inner, plan.direction),
{
    lemma_own_apart(root.num_qubits);
    lemma_plan_beside(root, plan, own_qubits(root.num_qubits), w);
}

/// What the beads of a wire take is what the circuit does on that qubit.
proof fn lemma_beads_on(circuit: CircuitModel, w: usize)
    requires
        circuit.wf(),
        circuit.num_qubits <= usize::MAX,
        w < circuit.num_qubits,
    ensures
        joined(beads_on(circuit, w)) == on_qubit(steps_of(circuit), w),
{
    lemma_own_apart(circuit.num_qubits);
    lemma_beads_are_the_run(
        circuit.ops,
        Seq::empty(),
        own_qubits(circuit.num_qubits),
        Some(w),
        circuit.num_qubits,
        circuit.num_clbits,
    );
}

/// Letting collectors leave their boxes keeps what is done on every qubit, and its order: read flat, with boxes and
/// collect boxes dissolved, the steps on a qubit are the same steps in the same order, whichever way a collector
/// left its box.
pub proof fn lemma_escapes_keep_the_order_on_every_qubit(root: CircuitModel, qubit: usize)
    requires
        root.wf(),
        valid(root),
        run_size(root.ops) <= usize::MAX,
        root.num_qubits <= usize::MAX,
    ensures
        on_qubit(steps_of(settled(root).circuit), qubit) == on_qubit(steps_of(root), qubit),
    decreases run_size(root.ops),
{
    lemma_valid_is_equipped(root);
    if available_escapes(root) is Ok {
        let plans = available_escapes(root)->Ok_0;
        lemma_available(root);
        lemma_escaped(root, plans);
        lemma_escaped_stays_valid(root, plans);
        let after = escaped(root, plans);
        if qubit < root.num_qubits {
            lemma_escaped_keeps_wire(root, plans, qubit);
            lemma_beads_on(root, qubit);
            lemma_beads_on(after.circuit, qubit);
        } else {
            lemma_nothing_off_the_circuit(root, qubit);
            lemma_nothing_off_the_circuit(after.circuit, qubit);
        }
        if plans.len() > 0 && after.error is None {
            lemma_escapes_keep_the_order_on_every_qubit(after.circuit, qubit);
        }
    }
}

} // verus!
