//! Absorb dressing into collectors: emission circuit to emission circuit, in place.
//!
//! Build leaves every emission and every gate where it was and every collector empty. This pass walks
//! outward from each collector along each of its own wires independently, writing what it takes over into
//! the collector's body:
//!
//! - A single-qubit standard gate is copied in as it is.
//! - An emission facing it, adjacent on *every* wire it covers, is rewritten to travel nowhere and placed
//!   in the body.
//! - Anything else ends that wire, and only that wire.
//!
//! **A walk descends but never ascends.** It steps into a box it reaches and carries on along the same wire
//! inside, so a collector can fold in the gates at the edge of the content box beside it. It will climb back
//! out of a box it descended into, but never above the scope it started in: a collector inside a box must
//! not reach out and take an enclosing box's emission, which would undo that box's randomization with none
//! of its content in between.

use vstd::multiset::Multiset;
use vstd::prelude::*;

use crate::beads::absent;
use crate::beads::frame_at;
use crate::beads::joined;
use crate::beads::lemma_bead_of_site;
use crate::beads::lemma_beads_are_the_run;
use crate::beads::lemma_beads_follow_the_wire;
use crate::beads::lemma_beads_of_refill;
use crate::beads::lemma_beads_of_removal;
use crate::beads::lemma_beads_single;
use crate::beads::lemma_descend;
use crate::beads::lemma_frame_at;
use crate::beads::lemma_frame_at_below;
use crate::beads::lemma_frame_kept;
use crate::beads::lemma_joined_add;
use crate::beads::lemma_joined_one;
use crate::beads::lemma_lifted_frame;
use crate::beads::lemma_nothing_off_the_circuit;
use crate::beads::lemma_own_apart;
use crate::beads::lemma_patched_absent;
use crate::beads::lemma_patched_add;
use crate::beads::lemma_patched_at;
use crate::beads::lemma_patched_one;
use crate::beads::lemma_stands_at_inside;
use crate::beads::lemma_strung_split;
use crate::beads::patched;
use crate::beads::single;
use crate::beads::strung;
use crate::beads::strung_of;
use crate::beads::tells_apart;
use crate::beads::wire_at;
use crate::beads::Bead;
use crate::circuit::blocks_size;
use crate::circuit::lemma_blocks_size_one;
use crate::circuit::run_size;
use crate::circuit::wires_below;
use crate::circuit::Circuit;
use crate::circuit::CircuitModel;
use crate::circuit::Instruction;
use crate::circuit::InstructionModel;
use crate::circuit::Operation;
use crate::circuit::OperationModel;
use crate::collections::IndexMap;
use crate::collections::PathSet;
use crate::emission_circuit::Collect;
use crate::emission_circuit::CollectModel;
use crate::emission_circuit::Emit;
use crate::emission_circuit::EmitModel;
use crate::emission_circuit_navigation::all_stand_on;
use crate::emission_circuit_navigation::along;
use crate::emission_circuit_navigation::append;
use crate::emission_circuit_navigation::collect_box;
use crate::emission_circuit_navigation::collect_op;
use crate::emission_circuit_navigation::collectors;
use crate::emission_circuit_navigation::collects_at;
use crate::emission_circuit_navigation::emission_spec;
use crate::emission_circuit_navigation::index_on;
use crate::emission_circuit_navigation::is_collector;
use crate::emission_circuit_navigation::lemma_cursor_never_ascends;
use crate::emission_circuit_navigation::lemma_past_distinct;
use crate::emission_circuit_navigation::lemma_paths_differ;
use crate::emission_circuit_navigation::lemma_rewrite;
use crate::emission_circuit_navigation::lemma_run_stands;
use crate::emission_circuit_navigation::lemma_sides_apart;
use crate::emission_circuit_navigation::lemma_rewrite_elsewhere;
use crate::emission_circuit_navigation::lemma_stands_at_below;
use crate::emission_circuit_navigation::lemma_scope_wf;
use crate::emission_circuit_navigation::lemma_stands_at_exists;
use crate::emission_circuit_navigation::lemma_stands_on_at;
use crate::emission_circuit_navigation::lemma_stands_on_lifts;
use crate::emission_circuit_navigation::lemma_sweep_reports_each_once;
use crate::emission_circuit_navigation::lemma_with_op;
use crate::emission_circuit_navigation::lemma_without;
use crate::emission_circuit_navigation::lifted;
use crate::emission_circuit_navigation::new_dag_body;
use crate::emission_circuit_navigation::next_instruction;
use crate::emission_circuit_navigation::path_of;
use crate::emission_circuit_navigation::same_but;
use crate::emission_circuit_navigation::scope_of;
use crate::emission_circuit_navigation::sighting;
use crate::emission_circuit_navigation::sights_past;
use crate::emission_circuit_navigation::site_exists;
use crate::emission_circuit_navigation::site_instruction;
use crate::emission_circuit_navigation::sites_model;
use crate::emission_circuit_navigation::stands_at;
use crate::emission_circuit_navigation::stands_on;
use crate::emission_circuit_navigation::swept;
use crate::emission_circuit_navigation::through;
use crate::emission_circuit_navigation::walk_ahead;
use crate::emission_circuit_navigation::with_op;
use crate::emission_circuit_navigation::within_run;
use crate::emission_circuit_navigation::with_scope;
use crate::emission_circuit_navigation::without;
use crate::emission_circuit_navigation::Ahead;
use crate::emission_circuit_navigation::ScopeOrder;
use crate::emission_circuit_navigation::Sighting;
use crate::emission_circuit_navigation::Site;
use crate::emission_circuit_navigation::SiteModel;
use crate::emission_circuit_navigation::WalkModel;
use crate::emission_circuit_navigation::WireCursor;
use crate::emission_circuit_navigation::WireSights;
use crate::error::SamplexError;
use crate::flat::flat;
use crate::flat::flat_of;
use crate::flat::lemma_flat_push;
use crate::flat::lemma_on_qubit_add;
use crate::flat::on_qubit;
use crate::flat::own_qubits;
use crate::flat::steps_of;
use crate::flat::Step;
use crate::parameters::clone_params;
use crate::parameters::params_model;
use crate::parameters::Param;
use crate::parameters::ParamModel;
use crate::partition::clone_list;
use crate::virtual_flow_graph::Direction;

use super::lower::holds_steps;
use super::validity::lemma_steps_with;
use super::validity::lemma_valid_at;
use super::validity::lemma_valid_refilled;
use super::validity::lemma_valid_rewrite;
use super::validity::lemma_valid_without;
use super::validity::valid;

verus! {

// --- The walk -----------------------------------------------------------------------------------

/// What a collector's walk one way sets out with: the circuit, where the collector stands, its wires, which
/// way the walk goes, and what others have claimed already.
#[verifier::ext_equal]
pub struct Outlook {
    pub root: CircuitModel,
    pub site: SiteModel,
    pub qubits: Seq<usize>,
    pub direction: Direction,
    pub claimed: Set<SiteModel>,
}

/// One thing a collector absorbed: a gate, by site, or an emission resolved in place, each with the wires it
/// covers in the collector's frame.
pub enum BodyOpModel {
    Gate(SiteModel, Seq<usize>),
    Local(EmitModel, Seq<usize>),
}

/// A walk under way: what is still ahead on each wire, nearest first, what was absorbed, in the order it
/// was, and where that stood.
#[verifier::ext_equal]
pub struct Taking {
    pub fronts: Seq<Seq<Ahead>>,
    pub content: Seq<BodyOpModel>,
    pub consumed: Seq<SiteModel>,
}

/// The instruction at a site.
pub open spec fn at_site(root: CircuitModel, site: SiteModel) -> InstructionModel {
    site_instruction(root, site)->Ok_0
}

impl Outlook {
    /// The direction an emission must have to face the collector.
    pub open spec fn facing(self) -> Direction {
        self.direction.opposite_of()
    }

    /// The circuit of the scope the collector stands in.
    pub open spec fn scope(self) -> CircuitModel {
        scope_of(self.root, self.site.scope)->Ok_0
    }

    /// Whether a site is inside a box beside the collector rather than beside it itself.
    pub open spec fn inside(self, site: SiteModel) -> bool {
        site.scope.len() > self.site.scope.len()
    }

    /// The wires a site covers, in the collector's frame.
    pub open spec fn wires(self, site: SiteModel) -> Seq<usize> {
        lifted(
            self.scope(),
            site.scope.skip(self.site.scope.len() as int),
            at_site(self.root, site).qubits,
        )->Ok_0
    }

    /// What the collector has ahead on one of its wires.
    pub open spec fn front(self, qubit: usize) -> Seq<Ahead> {
        walk_ahead(
            self.scope(),
            self.site.scope,
            WalkModel { descent: Seq::empty(), node: self.site.node, qubit },
            self.direction,
        )
    }

    /// Where the walk stands before it takes anything.
    pub open spec fn start(self) -> Taking {
        Taking {
            fronts: Seq::new(self.qubits.len(), |w: int| self.front(self.qubits[w])),
            content: Seq::empty(),
            consumed: Seq::empty(),
        }
    }
}

/// What a wire sees next, unless it has run out or runs into something claimed.
pub open spec fn next_open(front: Seq<Ahead>, claimed: Set<SiteModel>) -> Result<
    Option<SiteModel>,
    SamplexError,
> {
    if front.len() == 0 {
        Ok(None)
    } else {
        match front[0] {
            Ahead::Broken(error) => Err(error),
            Ahead::At(site) => if claimed.contains(site) {
                Ok(None)
            } else {
                Ok(Some(site))
            },
        }
    }
}

/// Whether the first thing past a run of easy gates is an emission facing a collector.
///
/// Inside a box that tells whether the run lies between the collector and the twirl point: those gates
/// multiply into this dressing and nothing propagating ever crosses them. Anything else, be it content, a
/// collector or the end of the body, means the run is on the far side of the twirl point.
pub open spec fn dressing_side(sights: Seq<Sighting>, facing: Direction) -> bool
    decreases sights.len(),
{
    if sights.len() == 0 {
        false
    } else {
        match sights[0] {
            Sighting::Emission(direction) => direction == Some(facing),
            Sighting::EasyGate => dressing_side(sights.drop_first(), facing),
            _ => false,
        }
    }
}

/// Whether a walk folds in what stands at a site as a gate: it is an easy one, and inside a box it is on
/// the dressing side of the twirl point.
pub open spec fn folds_in(look: Outlook, site: SiteModel) -> bool {
    let scope = scope_of(look.root, site.scope)->Ok_0;
    let inst = at_site(look.root, site);
    &&& sighting(inst) == Sighting::EasyGate
    &&& look.inside(site) ==> dressing_side(
        sights_past(scope, scope.at(site.node), inst.qubits[0], look.direction),
        look.facing(),
    )
}

/// A walk once what is next on a wire is absorbed.
pub open spec fn with_gate(look: Outlook, w: int, site: SiteModel, state: Taking) -> Taking {
    Taking {
        fronts: state.fronts.update(w, state.fronts[w].drop_first()),
        content: state.content.push(BodyOpModel::Gate(site, look.wires(site))),
        consumed: state.consumed.push(site),
    }
}

/// A walk once the gates next on a wire are absorbed, one after another.
pub open spec fn drained_wire(look: Outlook, w: int, state: Taking) -> Result<Taking, SamplexError>
    decreases state.fronts[w].len(),
{
    if w < 0 || w >= state.fronts.len() {
        Ok(state)
    } else {
        match next_open(state.fronts[w], look.claimed) {
            Err(error) => Err(error),
            Ok(None) => Ok(state),
            Ok(Some(site)) => if folds_in(look, site) {
                drained_wire(look, w, with_gate(look, w, site, state))
            } else {
                Ok(state)
            },
        }
    }
}

/// A walk once the gates next on each of the first wires are absorbed.
pub open spec fn drained(look: Outlook, count: nat, state: Taking) -> Result<Taking, SamplexError>
    decreases count,
{
    if count == 0 {
        Ok(state)
    } else {
        match drained(look, (count - 1) as nat, state) {
            Err(error) => Err(error),
            Ok(so_far) => drained_wire(look, count - 1, so_far),
        }
    }
}

/// The nearest collect box along a wire from a position, a way on, in its own scope.
pub open spec fn nearest_box(
    circuit: CircuitModel,
    at: int,
    wire: usize,
    direction: Direction,
) -> Option<int>
    decreases
            match direction {
                Direction::Right => circuit.ops.len() - at,
                Direction::Left => at,
            },
{
    match direction {
        Direction::Right => if at + 1 >= circuit.ops.len() || at < -1 {
            None
        } else if circuit.ops[at + 1].touches(wire) && circuit.ops[at + 1].op.is_collector() {
            Some(at + 1)
        } else {
            nearest_box(circuit, at + 1, wire, direction)
        },
        Direction::Left => if at <= 0 {
            None
        } else if circuit.ops[at - 1].touches(wire) && circuit.ops[at - 1].op.is_collector() {
            Some(at - 1)
        } else {
            nearest_box(circuit, at - 1, wire, direction)
        },
    }
}

/// Whether an emission has a collector of its own in the scope it sits in, on the side it starts from: on
/// every wire the nearest collector back covers all of them.
///
/// Scanning against its own direction is scanning back towards where it was written. A collector there is
/// the near half of the pair it belongs to, so the collector ahead of it is its own. Reaching the boundary
/// of the scope without finding one means the emission is passing through, and the only collector entitled
/// to it is one outside, which has to descend to reach it.
pub open spec fn anchored(circuit: CircuitModel, at: int, emit: EmitModel, wires: Seq<usize>) -> bool {
    match emit.direction {
        None => false,
        Some(direction) => forall|k: int|
            0 <= k < wires.len() ==> covering_box(
                circuit,
                at,
                #[trigger] wires[k],
                direction.opposite_of(),
                wires,
            ),
    }
}

/// Whether the nearest collector along a wire covers some wires.
pub open spec fn covering_box(
    circuit: CircuitModel,
    at: int,
    wire: usize,
    direction: Direction,
    wires: Seq<usize>,
) -> bool {
    match nearest_box(circuit, at, wire, direction) {
        None => false,
        Some(found) => forall|j: int|
            0 <= j < wires.len() ==> circuit.ops[found].qubits.contains(#[trigger] wires[j]),
    }
}

/// Whether an emission may come off at a site at all: it faces the collector, and the walk descended to
/// reach it or it is anchored beside the collector.
pub open spec fn may_come_off(look: Outlook, site: SiteModel) -> bool {
    let scope = scope_of(look.root, site.scope)->Ok_0;
    let inst = at_site(look.root, site);
    match inst.op {
        OperationModel::Emit(emit) => emit.direction == Some(look.facing()) && (look.inside(site)
            || anchored(scope, scope.at(site.node), emit, inst.qubits)),
        _ => false,
    }
}

/// Whether every wire from a place on, of those a site covers, sees that site next.
pub open spec fn all_reach(
    look: Outlook,
    fronts: Seq<Seq<Ahead>>,
    wires: Seq<usize>,
    site: SiteModel,
    from: int,
) -> Result<bool, SamplexError>
    decreases wires.len() - from,
{
    if from < 0 || from >= wires.len() {
        Ok(true)
    } else if !look.qubits.contains(wires[from]) {
        Ok(false)
    } else {
        match next_open(fronts[look.qubits.index_of(wires[from])], look.claimed) {
            Err(error) => Err(error),
            Ok(found) => if found == Some(site) {
                all_reach(look, fronts, wires, site, from + 1)
            } else {
                Ok(false)
            },
        }
    }
}

/// The emission next on a wire, if it comes off as a whole: taking it on some wires only would pull content
/// from the far side of it into the body ahead of where it belongs.
pub open spec fn layer_on(look: Outlook, fronts: Seq<Seq<Ahead>>, w: int) -> Result<
    Option<SiteModel>,
    SamplexError,
> {
    match next_open(fronts[w], look.claimed) {
        Err(error) => Err(error),
        Ok(None) => Ok(None),
        Ok(Some(site)) => if !may_come_off(look, site) {
            Ok(None)
        } else {
            match all_reach(look, fronts, look.wires(site), site, 0) {
                Err(error) => Err(error),
                Ok(every) => Ok(
                    if every {
                        Some(site)
                    } else {
                        None
                    },
                ),
            }
        },
    }
}

/// The first emission, by wire, that comes off as a whole.
pub open spec fn layer_from(look: Outlook, fronts: Seq<Seq<Ahead>>, from: int) -> Result<
    Option<SiteModel>,
    SamplexError,
>
    decreases fronts.len() - from,
{
    if from < 0 || from >= fronts.len() {
        Ok(None)
    } else {
        match layer_on(look, fronts, from) {
            Err(error) => Err(error),
            Ok(Some(site)) => Ok(Some(site)),
            Ok(None) => layer_from(look, fronts, from + 1),
        }
    }
}

/// A walk once an emission comes off as a whole, resolved in place.
pub open spec fn with_layer(look: Outlook, site: SiteModel, state: Taking) -> Taking {
    let wires = look.wires(site);
    Taking {
        fronts: Seq::new(
            state.fronts.len(),
            |w: int|
                if wires.contains(look.qubits[w]) {
                    state.fronts[w].drop_first()
                } else {
                    state.fronts[w]
                },
        ),
        content: state.content.push(
            BodyOpModel::Local((at_site(look.root, site).op->Emit_0).localized(), wires),
        ),
        consumed: state.consumed.push(site),
    }
}

/// How much is ahead on some wires, together.
pub open spec fn left_ahead(fronts: Seq<Seq<Ahead>>) -> nat
    decreases fronts.len(),
{
    if fronts.len() == 0 {
        0
    } else {
        left_ahead(fronts.drop_last()) + fronts.last().len()
    }
}

/// What a walk ends with: each round drains the adjacent gates, then takes one emission layer, until no
/// layer is available.
pub open spec fn rounds(look: Outlook, state: Taking) -> Result<Taking, SamplexError>
    decreases left_ahead(state.fronts),
{
    match drained(look, state.fronts.len(), state) {
        Err(error) => Err(error),
        Ok(so_far) => match layer_from(look, so_far.fronts, 0) {
            Err(error) => Err(error),
            Ok(None) => Ok(so_far),
            Ok(Some(site)) => {
                let next = with_layer(look, site, so_far);
                if left_ahead(next.fronts) < left_ahead(state.fronts) {
                    rounds(look, next)
                } else {
                    Ok(next)
                }
            },
        },
    }
}

/// One thing a collector absorbed, in the order it will sit in the collector's body.
enum BodyOp {
    /// An absorbed gate, by site, with the wires it covers in the collector's frame.
    Gate(Site, Vec<usize>),
    /// A local emission, already rewritten to travel nowhere, with its wires in the collector's frame.
    Local(Emit, Vec<usize>),
}

impl View for BodyOp {
    type V = BodyOpModel;

    closed spec fn view(&self) -> BodyOpModel {
        match self {
            BodyOp::Gate(site, wires) => BodyOpModel::Gate(site@, wires@),
            BodyOp::Local(emit, wires) => BodyOpModel::Local(emit@, wires@),
        }
    }
}

/// What one direction of one collector's walk found.
struct Walk {
    content: Vec<BodyOp>,
    consumed: Vec<Site>,
}

spec fn content_model(content: Seq<BodyOp>) -> Seq<BodyOpModel> {
    content.map_values(|op: BodyOp| op@)
}

/// Whether a set of paths is that of a set of sites.
pub open spec fn holds_sites(paths: Set<Seq<usize>>, sites: Set<SiteModel>) -> bool {
    forall|site: SiteModel| #[trigger] paths.contains(path_of(site)) <==> sites.contains(site)
}

/// The site this wire sees next, with the cursor that reaches it, or `None` if the wire has run out in the
/// collector's own scope or runs into something another collector already claimed.
fn peek(
    root: &Circuit,
    cursor: &WireCursor,
    direction: Direction,
    claimed: &PathSet,
    Ghost(claims): Ghost<Set<SiteModel>>,
) -> (result: Result<Option<(WireCursor, Site)>, SamplexError>)
    requires
        root@.wf(),
        cursor@.stands_in(root@),
        scope_of(root@, cursor@.base) is Ok,
        holds_sites(claimed@, claims),
    ensures
        match next_open(cursor@.ahead(root@, direction), claims) {
            Err(error) => result matches Err(reported) && reported == error,
            Ok(None) => result matches Ok(None),
            Ok(Some(said)) => result matches Ok(Some((probe, site))) && site@ == said && probe@.base
                == cursor@.base && probe@.stands_in(root@) && probe@.ahead(root@, direction)
                == cursor@.ahead(root@, direction).drop_first(),
        },
{
    match cursor.peek(root, direction) {
        Err(error) => Err(error),
        Ok(None) => Ok(None),
        Ok(Some((probe, site))) => {
            let path = site.path();
            assert(claimed@.contains(path_of(site@)) <==> claims.contains(site@));
            if claimed.contains(&path) {
                Ok(None)
            } else {
                Ok(Some((probe, site)))
            }
        },
    }
}

/// Whether a gate inside a box is on the dressing side of that box's twirl point, as seen by a collector
/// walking `direction`.
fn on_dressing_side(dag: &Circuit, node: usize, wire: usize, direction: Direction) -> (yes: bool)
    requires
        dag@.wf(),
        dag@.has(node),
    ensures
        yes == dressing_side(
            sights_past(dag@, dag@.at(node), wire, direction),
            direction.opposite_of(),
        ),
{
    let facing = direction.opposite();
    let mut sights = WireSights::ahead(dag, node, wire, direction);
    let ghost whole = sights.ahead_of();
    loop
        invariant
            sights.wf(),
            facing == direction.opposite_of(),
            whole == sights_past(dag@, dag@.at(node), wire, direction),
            dressing_side(whole, facing) == dressing_side(sights.ahead_of(), facing),
        decreases sights.ahead_of().len(),
    {
        match sights.next() {
            None => {
                return false;
            },
            Some(Sighting::Emission(direction)) => {
                return match direction {
                    Some(direction) => direction == facing,
                    None => false,
                };
            },
            Some(Sighting::EasyGate) => {},
            Some(_) => {
                return false;
            },
        }
    }
}

fn touches_wire(inst: &Instruction, wire: usize) -> (yes: bool)
    ensures
        yes == inst@.touches(wire),
{
    let mut i: usize = 0;
    while i < inst.qubits.len()
        invariant
            i <= inst.qubits.len(),
            forall|k: int| 0 <= k < i ==> inst.qubits@[k] != wire,
        decreases inst.qubits.len() - i,
    {
        if inst.qubits[i] == wire {
            assert(inst.qubits@[i as int] == wire);
            return true;
        }
        i += 1;
    }
    false
}

/// Find the nearest collect box along a wire from a position, a way on, in its own scope.
fn find_box(dag: &Circuit, at: usize, wire: usize, direction: Direction) -> (found: Option<usize>)
    requires
        at < dag@.ops.len(),
    ensures
        match nearest_box(dag@, at as int, wire, direction) {
            Some(said) => found matches Some(place) && place == said && place < dag@.ops.len(),
            None => found is None,
        },
{
    let count: usize = dag.ops.len();
    match direction {
        Direction::Right => {
            let mut i: usize = at;
            while i + 1 < count
                invariant
                    at <= i < count,
                    direction is Right,
                    count == dag@.ops.len(),
                    nearest_box(dag@, at as int, wire, Direction::Right) == nearest_box(
                        dag@,
                        i as int,
                        wire,
                        Direction::Right,
                    ),
                decreases count - i,
            {
                let inst = &dag.ops[i + 1];
                assert(dag@.ops[i + 1] == inst@);
                if touches_wire(inst, wire) && is_collector(inst) {
                    return Some(i + 1);
                }
                i += 1;
            }
            None
        },
        Direction::Left => {
            let mut i: usize = at;
            while i > 0
                invariant
                    i <= at < count,
                    direction is Left,
                    count == dag@.ops.len(),
                    nearest_box(dag@, at as int, wire, Direction::Left) == nearest_box(
                        dag@,
                        i as int,
                        wire,
                        Direction::Left,
                    ),
                decreases i,
            {
                let inst = &dag.ops[i - 1];
                assert(dag@.ops[i - 1] == inst@);
                if touches_wire(inst, wire) && is_collector(inst) {
                    return Some(i - 1);
                }
                i -= 1;
            }
            None
        },
    }
}

/// Whether an emission has a collector of its own in the scope it sits in, on the side it starts from.
///
/// The scan does not descend, as a collector inside a nested box is not in this scope, and does not ascend,
/// as the point is precisely whether this scope holds one.
fn anchored_in_scope(dag: &Circuit, at: usize, spec: &Emit, wires: &Vec<usize>) -> (yes: bool)
    requires
        at < dag@.ops.len(),
    ensures
        yes == anchored(dag@, at as int, spec@, wires@),
{
    let direction = match spec.direction {
        // Already resolved in place; it is not travelling anywhere.
        None => {
            return false;
        },
        Some(direction) => direction,
    };
    let back = direction.opposite();
    let mut k: usize = 0;
    while k < wires.len()
        invariant
            k <= wires.len(),
            at < dag@.ops.len(),
            back == direction.opposite_of(),
            spec@.direction == Some(direction),
            forall|j: int|
                0 <= j < k ==> covering_box(dag@, at as int, #[trigger] wires@[j], back, wires@),
        decreases wires.len() - k,
    {
        let found = match find_box(dag, at, wires[k], back) {
            None => {
                assert(!covering_box(dag@, at as int, wires@[k as int], back, wires@));
                return false;
            },
            Some(found) => found,
        };
        let inst = &dag.ops[found];
        assert(dag@.ops[found as int] == inst@);
        // Every wire, so a collector covering only part of the emission does not count: it could not
        // synthesize the whole of what was emitted.
        let mut j: usize = 0;
        while j < wires.len()
            invariant
                j <= wires.len(),
                k < wires.len(),
                at < dag@.ops.len(),
                inst@ == dag@.ops[found as int],
                back == direction.opposite_of(),
                spec@.direction == Some(direction),
                nearest_box(dag@, at as int, wires@[k as int], back) == Some(found as int),
                forall|i: int| 0 <= i < j ==> inst@.qubits.contains(#[trigger] wires@[i]),
            decreases wires.len() - j,
        {
            if !touches_wire(inst, wires[j]) {
                assert(!inst@.qubits.contains(wires@[j as int]));
                assert(!covering_box(dag@, at as int, wires@[k as int], back, wires@));
                return false;
            }
            j += 1;
        }
        k += 1;
    }
    true
}

impl Outlook {
    /// Whether the walk can be made: the collector is reached through content boxes, and its wires are the
    /// ones it is on.
    pub open spec fn wf(self) -> bool {
        &&& self.root.wf()
        &&& stands_at(self.root, self.site.scope, self.site.node)
        &&& self.qubits == at_site(self.root, self.site).qubits
    }

    /// Whether everything still ahead on each wire is something the walk can stop at.
    pub open spec fn fits(self, state: Taking) -> bool {
        &&& state.fronts.len() == self.qubits.len()
        &&& forall|w: int|
            0 <= w < self.qubits.len() ==> all_stand_on(
                self.scope(),
                self.site.scope,
                self.qubits[w],
                #[trigger] state.fronts[w],
            )
    }
}

/// The collector's scope is well formed, and its wires are distinct wires of it.
pub(crate) proof fn lemma_outlook(look: Outlook)
    requires
        look.wf(),
    ensures
        scope_of(look.root, look.site.scope) is Ok,
        look.scope().wf(),
        look.scope().has(look.site.node),
        at_site(look.root, look.site) == look.scope().get(look.site.node),
        wires_below(look.qubits, look.scope().num_qubits),
        site_exists(look.root, look.site),
{
    lemma_stands_at_exists(look.root, look.site.scope, look.site.node);
    let scope = look.scope();
    assert(scope.get(look.site.node).wf(scope.num_qubits, scope.num_clbits));
}

/// The walk fits what it starts with.
pub(crate) proof fn lemma_start_fits(look: Outlook)
    requires
        look.wf(),
    ensures
        look.fits(look.start()),
{
    lemma_outlook(look);
    assert forall|w: int| 0 <= w < look.qubits.len() implies all_stand_on(
        look.scope(),
        look.site.scope,
        look.qubits[w],
        #[trigger] look.start().fronts[w],
    ) by {
        lemma_cursor_never_ascends(look.root, look.site, look.qubits[w], look.direction);
    }
}

/// What a walk can stop at on a wire is an instruction of the circuit, which covers that wire.
pub(crate) proof fn lemma_stop(look: Outlook, qubit: usize, front: Seq<Ahead>, k: int)
    requires
        look.wf(),
        all_stand_on(look.scope(), look.site.scope, qubit, front),
        0 <= k < front.len(),
        front[k] is At,
    ensures
        ({
            let site = front[k]->At_0;
            let below = site.scope.skip(look.site.scope.len() as int);
            &&& stands_at(look.root, site.scope, site.node)
            &&& site_exists(look.root, site)
            &&& scope_of(look.root, site.scope) matches Ok(scope) && scope.wf() && scope.has(
                site.node,
            ) && at_site(look.root, site) == scope.get(site.node) && at_site(look.root, site).wf(
                scope.num_qubits,
                scope.num_clbits,
            )
            &&& look.site.scope.len() <= site.scope.len()
            &&& site.scope.take(look.site.scope.len() as int) == look.site.scope
            &&& lifted(look.scope(), below, at_site(look.root, site).qubits) == Ok::<
                Seq<usize>,
                SamplexError,
            >(look.wires(site))
            &&& look.wires(site).contains(qubit)
            &&& look.wires(site).len() == at_site(look.root, site).qubits.len()
            &&& wires_below(look.wires(site), look.scope().num_qubits)
        }),
{
    lemma_outlook(look);
    let site = front[k]->At_0;
    let base = look.site.scope;
    let below = site.scope.skip(base.len() as int);
    assert(stands_on(look.scope(), below, site.node, qubit));
    lemma_stands_on_at(look.scope(), below, site.node, qubit);
    lemma_stands_on_lifts(look.scope(), below, site.node, qubit);
    lemma_stands_at_below(look.root, base, look.site.node, below, site.node);
    assert(base + below =~= site.scope);
    lemma_stands_at_exists(look.root, site.scope, site.node);
    let scope = scope_of(look.root, site.scope)->Ok_0;
    assert(scope.get(site.node).wf(scope.num_qubits, scope.num_clbits));
}

proof fn lemma_left_update(fronts: Seq<Seq<Ahead>>, w: int, front: Seq<Ahead>)
    requires
        0 <= w < fronts.len(),
    ensures
        left_ahead(fronts.update(w, front)) == left_ahead(fronts) - fronts[w].len() + front.len(),
    decreases fronts.len(),
{
    let after = fronts.update(w, front);
    if w == fronts.len() - 1 {
        assert(after.drop_last() =~= fronts.drop_last());
    } else {
        lemma_left_update(fronts.drop_last(), w, front);
        assert(after.drop_last() =~= fronts.drop_last().update(w, front));
        assert(after.last() == fronts.last());
    }
}

proof fn lemma_left_less(before: Seq<Seq<Ahead>>, after: Seq<Seq<Ahead>>)
    requires
        before.len() == after.len(),
        forall|w: int| 0 <= w < before.len() ==> (#[trigger] after[w]).len() <= before[w].len(),
    ensures
        left_ahead(after) <= left_ahead(before),
        (exists|w: int| 0 <= w < before.len() && (#[trigger] after[w]).len() < before[w].len())
            ==> left_ahead(after) < left_ahead(before),
    decreases before.len(),
{
    if before.len() > 0 {
        let last = before.len() - 1;
        assert forall|w: int| 0 <= w < last implies (#[trigger] after.drop_last()[w]).len()
            <= before.drop_last()[w].len() by {
            assert(after[w].len() <= before[w].len());
        }
        lemma_left_less(before.drop_last(), after.drop_last());
        assert(after[last].len() <= before[last].len());
        if exists|w: int| 0 <= w < before.len() && (#[trigger] after[w]).len() < before[w].len() {
            let w = choose|w: int|
                0 <= w < before.len() && (#[trigger] after[w]).len() < before[w].len();
            if w < last {
                assert(after.drop_last()[w].len() < before.drop_last()[w].len());
            }
        }
    }
}

proof fn lemma_drained_prefix(look: Outlook, few: nat, many: nat, state: Taking)
    requires
        few <= many,
        drained(look, few, state) is Err,
    ensures
        drained(look, many, state) == drained(look, few, state),
    decreases many,
{
    if few < many {
        lemma_drained_prefix(look, few, (many - 1) as nat, state);
    }
}

/// What a walk holds, read off its cursors and what it collected.
spec fn held(
    root: CircuitModel,
    direction: Direction,
    cursors: Seq<WireCursor>,
    walk: Walk,
) -> Taking {
    Taking {
        fronts: cursors.map_values(|cursor: WireCursor| cursor@.ahead(root, direction)),
        content: content_model(walk.content@),
        consumed: sites_model(walk.consumed@),
    }
}

/// Whether the cursors of a walk are in the circuit, based where the collector stands.
spec fn based(look: Outlook, cursors: Seq<WireCursor>) -> bool {
    &&& cursors.len() == look.qubits.len()
    &&& forall|w: int|
        0 <= w < cursors.len() ==> (#[trigger] cursors[w])@.base == look.site.scope
            && cursors[w]@.stands_in(look.root)
}

/// Drain the single-qubit gates now adjacent on one wire. Absorbing one can only expose another on that same
/// wire.
fn drain_wire(
    root: &Circuit,
    collector: &Site,
    direction: Direction,
    claimed: &PathSet,
    w: usize,
    cursors: &mut Vec<WireCursor>,
    walk: &mut Walk,
    Ghost(look): Ghost<Outlook>,
) -> (result: Result<(), SamplexError>)
    requires
        look.wf(),
        look.root == root@,
        look.site == collector@,
        look.direction == direction,
        holds_sites(claimed@, look.claimed),
        w < look.qubits.len(),
        based(look, old(cursors)@),
        look.fits(held(root@, direction, old(cursors)@, *old(walk))),
    ensures
        based(look, final(cursors)@),
        look.fits(held(root@, direction, final(cursors)@, *final(walk))),
        left_ahead(held(root@, direction, final(cursors)@, *final(walk)).fronts) <= left_ahead(
            held(root@, direction, old(cursors)@, *old(walk)).fronts,
        ),
        match drained_wire(look, w as int, held(root@, direction, old(cursors)@, *old(walk))) {
            Ok(after) => result is Ok && held(root@, direction, final(cursors)@, *final(walk))
                == after,
            Err(error) => result matches Err(reported) && reported == error,
        },
{
    let ghost start = held(root@, direction, cursors@, *walk);
    proof {
        lemma_outlook(look);
    }
    loop
        invariant
            look.wf(),
            look.root == root@,
            look.site == collector@,
            look.direction == direction,
            holds_sites(claimed@, look.claimed),
            scope_of(look.root, look.site.scope) is Ok,
            w < look.qubits.len(),
            based(look, cursors@),
            look.fits(held(root@, direction, cursors@, *walk)),
            start == held(root@, direction, old(cursors)@, *old(walk)),
            left_ahead(held(root@, direction, cursors@, *walk).fronts) <= left_ahead(start.fronts),
            drained_wire(look, w as int, start) == drained_wire(
                look,
                w as int,
                held(root@, direction, cursors@, *walk),
            ),
        decreases held(root@, direction, cursors@, *walk).fronts[w as int].len(),
    {
        let ghost state = held(root@, direction, cursors@, *walk);
        let ghost front = state.fronts[w as int];
        assert(front == cursors@[w as int]@.ahead(root@, direction));
        let (probe, site) = match peek(root, &cursors[w], direction, claimed, Ghost(look.claimed)) {
            Err(error) => {
                return Err(error);
            },
            Ok(None) => {
                return Ok(());
            },
            Ok(Some(found)) => found,
        };
        proof {
            assert(front[0] == Ahead::At(site@));
            assert(all_stand_on(look.scope(), look.site.scope, look.qubits[w as int], state.fronts[w as int]));
            lemma_stop(look, look.qubits[w as int], front, 0);
        }
        let dag = match site.scope_dag(root) {
            Err(error) => {
                return Err(error);
            },
            Ok(dag) => dag,
        };
        let inst = dag.instruction(site.node);
        if Sighting::of(inst) != Sighting::EasyGate {
            return Ok(());
        }
        // Inside a box, only the dressing side of the twirl point is this collector's to take.
        if site.deeper_than(collector.scope.as_slice()) && !on_dressing_side(
            dag,
            site.node,
            inst.qubits[0],
            direction,
        ) {
            return Ok(());
        }
        proof {
            crate::emission_circuit_navigation::lemma_scope_of_concat(
                root@,
                look.site.scope,
                site@.scope.skip(look.site.scope.len() as int),
            );
            assert(look.site.scope + site@.scope.skip(look.site.scope.len() as int) =~= site@.scope);
        }
        let wires = match site.qubits_in(root, collector.scope.as_slice()) {
            Err(error) => {
                return Err(error);
            },
            Ok(wires) => wires,
        };
        let ghost consumed = walk.consumed@;
        let ghost content = walk.content@;
        let ghost given = cursors@;
        let op = BodyOp::Gate(site.clone(), wires);
        let ghost said = op@;
        walk.content.push(op);
        walk.consumed.push(site);
        cursors.set(w, probe);
        proof {
            let next = held(root@, direction, cursors@, *walk);
            assert(content_model(walk.content@) =~= content_model(content).push(said));
            assert(sites_model(walk.consumed@) =~= sites_model(consumed).push(site@));
            assert(next.fronts =~= state.fronts.update(w as int, front.drop_first()));
            assert(next =~= with_gate(look, w as int, site@, state));
            lemma_left_update(state.fronts, w as int, front.drop_first());
            assert forall|v: int| 0 <= v < look.qubits.len() implies all_stand_on(
                look.scope(),
                look.site.scope,
                look.qubits[v],
                #[trigger] next.fronts[v],
            ) by {
                assert(all_stand_on(
                    look.scope(),
                    look.site.scope,
                    look.qubits[v],
                    state.fronts[v],
                ));
                if v == w {
                    assert forall|k: int| 0 <= k < front.drop_first().len() implies (
                    #[trigger] front.drop_first()[k]) == front[k + 1] by {}
                }
            }
        }
    }
}

/// Whether a lookup knows the place of each of some wires.
spec fn places_of(places: Map<usize, usize>, qubits: Seq<usize>) -> bool {
    &&& forall|q: usize| #[trigger] places.dom().contains(q) <==> qubits.contains(q)
    &&& forall|w: int| 0 <= w < qubits.len() ==> places[#[trigger] qubits[w]] == w
}

/// Whether every wire a site covers sees that site next.
fn every_wire_reaches(
    root: &Circuit,
    direction: Direction,
    claimed: &PathSet,
    cursors: &Vec<WireCursor>,
    places: &IndexMap,
    wires: &Vec<usize>,
    site: &Site,
    Ghost(look): Ghost<Outlook>,
    Ghost(walk): Ghost<Walk>,
) -> (result: Result<bool, SamplexError>)
    requires
        look.wf(),
        look.root == root@,
        look.direction == direction,
        holds_sites(claimed@, look.claimed),
        places_of(places@, look.qubits),
        look.qubits.no_duplicates(),
        based(look, cursors@),
    ensures
        match all_reach(
            look,
            held(root@, direction, cursors@, walk).fronts,
            wires@,
            site@,
            0,
        ) {
            Ok(every) => result == Ok::<bool, SamplexError>(every),
            Err(error) => result matches Err(reported) && reported == error,
        },
{
    let ghost fronts = held(root@, direction, cursors@, walk).fronts;
    proof {
        lemma_outlook(look);
    }
    let here = site.path();
    let mut k: usize = 0;
    while k < wires.len()
        invariant
            k <= wires.len(),
            look.wf(),
            look.root == root@,
            look.direction == direction,
            scope_of(look.root, look.site.scope) is Ok,
            holds_sites(claimed@, look.claimed),
            places_of(places@, look.qubits),
            look.qubits.no_duplicates(),
            based(look, cursors@),
            here@ == path_of(site@),
            fronts == held(root@, direction, cursors@, walk).fronts,
            all_reach(look, fronts, wires@, site@, 0) == all_reach(
                look,
                fronts,
                wires@,
                site@,
                k as int,
            ),
        decreases wires.len() - k,
    {
        let place = match places.get(wires[k]) {
            None => {
                assert(!places@.dom().contains(wires@[k as int]));
                assert(!look.qubits.contains(wires@[k as int]));
                return Ok(false);
            },
            Some(place) => place,
        };
        proof {
            let wire = wires@[k as int];
            assert(places@.dom().contains(wire));
            let w = look.qubits.index_of(wire);
            assert(look.qubits[w] == wire);
            assert(place == w);
            assert(fronts[place as int] == cursors@[place as int]@.ahead(root@, direction));
        }
        match peek(root, &cursors[place], direction, claimed, Ghost(look.claimed)) {
            Err(error) => {
                return Err(error);
            },
            Ok(None) => {
                return Ok(false);
            },
            Ok(Some((_, reached))) => {
                let there = reached.path();
                proof {
                    lemma_paths_differ(reached@, site@);
                }
                if !same_path(&there, &here) {
                    return Ok(false);
                }
            },
        }
        k += 1;
    }
    Ok(true)
}

pub(crate) fn same_path(left: &Vec<usize>, right: &Vec<usize>) -> (same: bool)
    ensures
        same == (left@ == right@),
{
    if left.len() != right.len() {
        return false;
    }
    let mut i: usize = 0;
    while i < left.len()
        invariant
            i <= left.len(),
            left@.len() == right@.len(),
            forall|k: int| 0 <= k < i ==> left@[k] == right@[k],
        decreases left.len() - i,
    {
        if left[i] != right[i] {
            assert(left@[i as int] != right@[i as int]);
            return false;
        }
        i += 1;
    }
    assert(left@ =~= right@);
    true
}

/// Find the first emission, by wire, that comes off as a whole.
///
/// Requiring every wire also confines it to the collector's own qubits, since a wire outside them has no
/// cursor to be adjacent on.
#[verifier::rlimit(40)]
fn find_layer(
    root: &Circuit,
    collector: &Site,
    direction: Direction,
    claimed: &PathSet,
    cursors: &Vec<WireCursor>,
    places: &IndexMap,
    Ghost(look): Ghost<Outlook>,
    Ghost(walk): Ghost<Walk>,
) -> (result: Result<Option<(Site, Emit, Vec<usize>)>, SamplexError>)
    requires
        look.wf(),
        look.root == root@,
        look.site == collector@,
        look.direction == direction,
        holds_sites(claimed@, look.claimed),
        places_of(places@, look.qubits),
        look.qubits.no_duplicates(),
        based(look, cursors@),
        look.fits(held(root@, direction, cursors@, walk)),
    ensures
        match layer_from(look, held(root@, direction, cursors@, walk).fronts, 0) {
            Ok(Some(said)) => result matches Ok(Some((site, emit, wires))) && site@ == said && emit@
                == at_site(root@, said).op->Emit_0 && wires@ == look.wires(said) && (exists|w: int|
                0 <= w < look.qubits.len() && look.wires(said).contains(
                    #[trigger] look.qubits[w],
                ) && held(root@, direction, cursors@, walk).fronts[w].len() > 0) && (forall|k: int|
                0 <= k < wires@.len() ==> look.qubits.contains(#[trigger] wires@[k])
                    && held(root@, direction, cursors@, walk).fronts[look.qubits.index_of(
                    wires@[k],
                )].len() > 0 && held(root@, direction, cursors@, walk).fronts[look.qubits.index_of(
                    wires@[k],
                )][0] == Ahead::At(said)),
            Ok(None) => result matches Ok(None),
            Err(error) => result matches Err(reported) && reported == error,
        },
{
    let ghost state = held(root@, direction, cursors@, walk);
    let ghost fronts = state.fronts;
    let facing = direction.opposite();
    proof {
        lemma_outlook(look);
    }
    let mut w: usize = 0;
    while w < cursors.len()
        invariant
            w <= cursors.len(),
            look.wf(),
            look.root == root@,
            look.site == collector@,
            look.direction == direction,
            facing == look.facing(),
            scope_of(look.root, look.site.scope) is Ok,
            look.scope().wf(),
            holds_sites(claimed@, look.claimed),
            places_of(places@, look.qubits),
            look.qubits.no_duplicates(),
            based(look, cursors@),
            state == held(root@, direction, cursors@, walk),
            fronts == state.fronts,
            look.fits(state),
            layer_from(look, fronts, 0) == layer_from(look, fronts, w as int),
        decreases cursors.len() - w,
    {
        assert(fronts[w as int] == cursors@[w as int]@.ahead(root@, direction));
        match peek(root, &cursors[w], direction, claimed, Ghost(look.claimed)) {
            Err(error) => {
                return Err(error);
            },
            Ok(None) => {},
            Ok(Some((_, site))) => {
                proof {
                    assert(all_stand_on(
                        look.scope(),
                        look.site.scope,
                        look.qubits[w as int],
                        fronts[w as int],
                    ));
                    lemma_stop(look, look.qubits[w as int], fronts[w as int], 0);
                }
                let dag = match site.scope_dag(root) {
                    Err(error) => {
                        return Err(error);
                    },
                    Ok(dag) => dag,
                };
                let at = dag.position(site.node);
                let inst = &dag.ops[at];
                let mut candidate: Option<Emit> = None;
                if let Some(spec) = emission_spec(inst) {
                    let faces = match spec.direction {
                        Some(direction) => direction == facing,
                        None => false,
                    };
                    // Facing is not enough. An emission propagating out of an enclosing box sits in the
                    // same scope as the collectors of every box nested inside it, and it faces them, so a
                    // sibling collector would take it and undo that box's randomization with none of its
                    // content in between. What separates the two is *how* the collector got here: its own
                    // emissions are ones it had to descend to reach, or ones anchored beside it in its own
                    // scope.
                    if faces && (site.deeper_than(collector.scope.as_slice()) || anchored_in_scope(
                        dag,
                        at,
                        &spec,
                        &inst.qubits,
                    )) {
                        candidate = Some(spec);
                    }
                }
                assert((candidate is Some) == may_come_off(look, site@));
                if let Some(spec) = candidate {
                    proof {
                        crate::emission_circuit_navigation::lemma_scope_of_concat(
                            root@,
                            look.site.scope,
                            site@.scope.skip(look.site.scope.len() as int),
                        );
                        assert(look.site.scope + site@.scope.skip(look.site.scope.len() as int)
                            =~= site@.scope);
                    }
                    let wires = match site.qubits_in(root, collector.scope.as_slice()) {
                        Err(error) => {
                            return Err(error);
                        },
                        Ok(wires) => wires,
                    };
                    match every_wire_reaches(
                        root,
                        direction,
                        claimed,
                        cursors,
                        places,
                        &wires,
                        &site,
                        Ghost(look),
                        Ghost(walk),
                    ) {
                        Err(error) => {
                            return Err(error);
                        },
                        Ok(true) => {
                            proof {
                                assert(look.wires(site@).contains(look.qubits[w as int]));
                                lemma_all_reach(look, fronts, wires@, site@, 0);
                            }
                            return Ok(Some((site, spec, wires)));
                        },
                        Ok(false) => {},
                    }
                }
            },
        }
        w += 1;
    }
    Ok(None)
}

proof fn lemma_all_reach(
    look: Outlook,
    fronts: Seq<Seq<Ahead>>,
    wires: Seq<usize>,
    site: SiteModel,
    from: int,
)
    requires
        0 <= from <= wires.len(),
        all_reach(look, fronts, wires, site, from) == Ok::<bool, SamplexError>(true),
    ensures
        forall|k: int|
            from <= k < wires.len() ==> look.qubits.contains(#[trigger] wires[k])
                && fronts[look.qubits.index_of(wires[k])].len() > 0 && fronts[look.qubits.index_of(
                wires[k],
            )][0] == Ahead::At(site) && !look.claimed.contains(site),
    decreases wires.len() - from,
{
    if from < wires.len() {
        lemma_all_reach(look, fronts, wires, site, from + 1);
    }
}

/// Move the cursor of each wire an emission covers past it.
fn pass_layer(
    root: &Circuit,
    direction: Direction,
    cursors: &mut Vec<WireCursor>,
    places: &IndexMap,
    wires: &Vec<usize>,
    Ghost(look): Ghost<Outlook>,
    Ghost(site): Ghost<SiteModel>,
    Ghost(walk): Ghost<Walk>,
) -> (result: Result<(), SamplexError>)
    requires
        look.wf(),
        look.root == root@,
        look.direction == direction,
        places_of(places@, look.qubits),
        look.qubits.no_duplicates(),
        wires@.no_duplicates(),
        based(look, old(cursors)@),
        forall|k: int|
            0 <= k < wires@.len() ==> look.qubits.contains(#[trigger] wires@[k]) && held(
                root@,
                direction,
                old(cursors)@,
                walk,
            ).fronts[look.qubits.index_of(wires@[k])].len() > 0 && held(
                root@,
                direction,
                old(cursors)@,
                walk,
            ).fronts[look.qubits.index_of(wires@[k])][0] == Ahead::At(site),
    ensures
        result is Ok,
        based(look, final(cursors)@),
        held(root@, direction, final(cursors)@, walk).fronts == Seq::new(
            look.qubits.len(),
            |w: int|
                if wires@.contains(look.qubits[w]) {
                    held(root@, direction, old(cursors)@, walk).fronts[w].drop_first()
                } else {
                    held(root@, direction, old(cursors)@, walk).fronts[w]
                },
        ),
{
    let ghost given = held(root@, direction, cursors@, walk).fronts;
    proof {
        lemma_outlook(look);
    }
    let mut k: usize = 0;
    while k < wires.len()
        invariant
            k <= wires.len(),
            look.wf(),
            look.root == root@,
            look.direction == direction,
            scope_of(look.root, look.site.scope) is Ok,
            places_of(places@, look.qubits),
            look.qubits.no_duplicates(),
            wires@.no_duplicates(),
            based(look, cursors@),
            given.len() == look.qubits.len(),
            given == held(root@, direction, old(cursors)@, walk).fronts,
            forall|j: int|
                0 <= j < wires@.len() ==> look.qubits.contains(#[trigger] wires@[j])
                    && given[look.qubits.index_of(wires@[j])].len() > 0
                    && given[look.qubits.index_of(wires@[j])][0] == Ahead::At(site),
            forall|w: int|
                0 <= w < cursors@.len() ==> (#[trigger] cursors@[w])@.ahead(root@, direction)
                    == if wires@.take(k as int).contains(look.qubits[w]) {
                    given[w].drop_first()
                } else {
                    given[w]
                },
        decreases wires.len() - k,
    {
        let ghost wire = wires@[k as int];
        let ghost done = wires@.take(k as int);
        let ghost more = wires@.take(k + 1);
        let place = match places.get(wires[k]) {
            None => {
                assert(look.qubits.contains(wires@[k as int]));
                assert(places@.dom().contains(wire));
                return Ok(());
            },
            Some(place) => place,
        };
        let ghost w = look.qubits.index_of(wire);
        proof {
            assert(look.qubits.contains(wires@[k as int]));
            assert(look.qubits[w] == wire);
            assert(place == w);
            assert(!done.contains(wire)) by {
                if done.contains(wire) {
                    let j = done.index_of(wire);
                    assert(wires@[j] == wires@[k as int]);
                }
            }
            assert(cursors@[w]@.ahead(root@, direction) == given[w]);
            assert(more =~= done.push(wire));
        }
        let mut probe = cursors[place].clone();
        match probe.advance(root, direction) {
            Err(error) => {
                return Err(error);
            },
            Ok(_) => {},
        }
        let ghost before = cursors@;
        cursors.set(place, probe);
        proof {
            assert forall|v: int| 0 <= v < cursors@.len() implies (#[trigger] cursors@[v])@.ahead(
                root@,
                direction,
            ) == if more.contains(look.qubits[v]) {
                given[v].drop_first()
            } else {
                given[v]
            } by {
                assert(more[k as int] == wire);
                if v != w {
                    assert(look.qubits[v] != wire);
                    assert(cursors@[v] == before[v]);
                    if done.contains(look.qubits[v]) {
                        assert(more[done.index_of(look.qubits[v])] == look.qubits[v]);
                    }
                    if more.contains(look.qubits[v]) {
                        assert(done[more.index_of(look.qubits[v])] == look.qubits[v]);
                    }
                }
            }
        }
        k += 1;
    }
    proof {
        assert(wires@.take(k as int) =~= wires@);
        assert(held(root@, direction, cursors@, walk).fronts =~= Seq::new(
            look.qubits.len(),
            |w: int|
                if wires@.contains(look.qubits[w]) {
                    given[w].drop_first()
                } else {
                    given[w]
                },
        ));
    }
    Ok(())
}

/// Walk outward from a collector along its own wires, absorbing what it reaches.
///
/// Each wire carries its own cursor, so a blocked wire stops moving rather than ending the walk, and a wire
/// that has descended into a box goes on while another has not. Each round drains the adjacent single-qubit
/// gates then takes at most one emission layer; the walk ends when no layer is available.
#[verifier::rlimit(40)]
fn walk_absorb(
    root: &Circuit,
    collector: &Site,
    direction: Direction,
    qubits: &Vec<usize>,
    claimed: &PathSet,
    Ghost(look): Ghost<Outlook>,
) -> (result: Result<Walk, SamplexError>)
    requires
        look.wf(),
        look.root == root@,
        look.site == collector@,
        look.qubits == qubits@,
        look.direction == direction,
        holds_sites(claimed@, look.claimed),
    ensures
        match rounds(look, look.start()) {
            Ok(after) => result matches Ok(walk) && content_model(walk.content@) == after.content
                && sites_model(walk.consumed@) == after.consumed,
            Err(error) => result matches Err(reported) && reported == error,
        },
{
    let mut cursors: Vec<WireCursor> = Vec::new();
    let mut places = IndexMap::new();
    proof {
        lemma_outlook(look);
        lemma_start_fits(look);
    }
    let mut w: usize = 0;
    while w < qubits.len()
        invariant
            w <= qubits.len(),
            look.wf(),
            look.root == root@,
            look.site == collector@,
            look.qubits == qubits@,
            look.direction == direction,
            site_exists(look.root, look.site),
            qubits@.no_duplicates(),
            cursors@.len() == w,
            forall|v: int|
                0 <= v < w ==> (#[trigger] cursors@[v])@.base == look.site.scope
                    && cursors@[v]@.stands_in(look.root) && cursors@[v]@.ahead(root@, direction)
                    == look.front(qubits@[v]),
            forall|q: usize| #[trigger]
                places@.dom().contains(q) <==> qubits@.take(w as int).contains(q),
            forall|v: int| 0 <= v < w ==> places@[#[trigger] qubits@[v]] == v,
        decreases qubits.len() - w,
    {
        let ghost done = qubits@.take(w as int);
        let ghost more = qubits@.take(w + 1);
        let ghost known = places@;
        cursors.push(WireCursor::at(collector, qubits[w]));
        places.insert(qubits[w], w);
        proof {
            assert(more =~= done.push(qubits@[w as int]));
            assert forall|q: usize| #[trigger] places@.dom().contains(q) <==> more.contains(q) by {
                assert(known.dom().contains(q) <==> done.contains(q));
                assert(more[w as int] == qubits@[w as int]);
                if done.contains(q) {
                    assert(more[done.index_of(q)] == q);
                }
                if more.contains(q) && q != qubits@[w as int] {
                    assert(done[more.index_of(q)] == q);
                }
            }
            assert forall|v: int| 0 <= v < w + 1 implies places@[#[trigger] qubits@[v]] == v by {
                if v < w {
                    assert(qubits@[v] != qubits@[w as int]);
                }
            }
        }
        w += 1;
    }
    let mut walk = Walk { content: Vec::new(), consumed: Vec::new() };
    proof {
        assert(qubits@.take(w as int) =~= qubits@);
        assert(content_model(walk.content@) =~= Seq::<BodyOpModel>::empty());
        assert(sites_model(walk.consumed@) =~= Seq::<SiteModel>::empty());
        assert(held(root@, direction, cursors@, walk).fronts =~= look.start().fronts);
        assert(held(root@, direction, cursors@, walk) =~= look.start());
    }
    loop
        invariant
            look.wf(),
            look.root == root@,
            look.site == collector@,
            look.qubits == qubits@,
            look.direction == direction,
            qubits@.no_duplicates(),
            holds_sites(claimed@, look.claimed),
            places_of(places@, look.qubits),
            based(look, cursors@),
            look.fits(held(root@, direction, cursors@, walk)),
            rounds(look, look.start()) == rounds(look, held(root@, direction, cursors@, walk)),
        decreases left_ahead(held(root@, direction, cursors@, walk).fronts),
    {
        let ghost state = held(root@, direction, cursors@, walk);
        let count: usize = cursors.len();
        let mut w: usize = 0;
        while w < count
            invariant
                w <= count,
                count == look.qubits.len(),
                look.wf(),
                look.root == root@,
                look.site == collector@,
                look.qubits == qubits@,
                look.direction == direction,
                holds_sites(claimed@, look.claimed),
                based(look, cursors@),
                look.fits(held(root@, direction, cursors@, walk)),
                state.fronts.len() == count,
                rounds(look, look.start()) == rounds(look, state),
                left_ahead(held(root@, direction, cursors@, walk).fronts) <= left_ahead(
                    state.fronts,
                ),
                drained(look, w as nat, state) == Ok::<Taking, SamplexError>(
                    held(root@, direction, cursors@, walk),
                ),
            decreases count - w,
        {
            match drain_wire(
                root,
                collector,
                direction,
                claimed,
                w,
                &mut cursors,
                &mut walk,
                Ghost(look),
            ) {
                Ok(_) => {},
                Err(error) => {
                    proof {
                        lemma_drained_prefix(look, (w + 1) as nat, count as nat, state);
                    }
                    return Err(error);
                },
            }
            w += 1;
        }
        let ghost so_far = held(root@, direction, cursors@, walk);
        let layer = match find_layer(
            root,
            collector,
            direction,
            claimed,
            &cursors,
            &places,
            Ghost(look),
            Ghost(walk),
        ) {
            Ok(layer) => layer,
            Err(error) => {
                return Err(error);
            },
        };
        let (site, spec, wires) = match layer {
            None => {
                return Ok(walk);
            },
            Some(layer) => layer,
        };
        let ghost said = site@;
        proof {
            let v = choose|v: int|
                0 <= v < look.qubits.len() && look.wires(said).contains(
                    #[trigger] look.qubits[v],
                ) && so_far.fronts[v].len() > 0;
            let k = wires@.index_of(look.qubits[v]);
            assert(wires@[k] == look.qubits[v]);
            assert(look.qubits.index_of(wires@[k]) == v);
            assert(so_far.fronts[v][0] == Ahead::At(said));
            assert(all_stand_on(look.scope(), look.site.scope, look.qubits[v], so_far.fronts[v]));
            lemma_stop(look, look.qubits[v], so_far.fronts[v], 0);
        }
        match pass_layer(
            root,
            direction,
            &mut cursors,
            &places,
            &wires,
            Ghost(look),
            Ghost(said),
            Ghost(walk),
        ) {
            Ok(_) => {},
            Err(error) => {
                return Err(error);
            },
        }
        let ghost content = walk.content@;
        let ghost consumed = walk.consumed@;
        // Absorption resolves the emission in place.
        let local = Emit { direction: None, partition: spec.partition, parts: spec.parts };
        let op = BodyOp::Local(local, wires);
        let ghost entry = op@;
        walk.content.push(op);
        walk.consumed.push(site);
        proof {
            let next = held(root@, direction, cursors@, walk);
            assert(content_model(walk.content@) =~= content_model(content).push(entry));
            assert(sites_model(walk.consumed@) =~= sites_model(consumed).push(said));
            assert(next.fronts =~= with_layer(look, said, so_far).fronts);
            assert(next =~= with_layer(look, said, so_far));
            let v = choose|v: int|
                0 <= v < look.qubits.len() && look.wires(said).contains(
                    #[trigger] look.qubits[v],
                ) && so_far.fronts[v].len() > 0;
            assert(next.fronts[v].len() < so_far.fronts[v].len());
            assert forall|u: int| 0 <= u < so_far.fronts.len() implies (#[trigger] next.fronts[u]).len()
                <= so_far.fronts[u].len() by {
                if wires@.contains(look.qubits[u]) {
                    let k = wires@.index_of(look.qubits[u]);
                    assert(wires@[k] == look.qubits[u]);
                    assert(look.qubits.index_of(wires@[k]) == u);
                }
            }
            lemma_left_less(so_far.fronts, next.fronts);
            assert forall|u: int| 0 <= u < look.qubits.len() implies all_stand_on(
                look.scope(),
                look.site.scope,
                look.qubits[u],
                #[trigger] next.fronts[u],
            ) by {
                assert(all_stand_on(
                    look.scope(),
                    look.site.scope,
                    look.qubits[u],
                    so_far.fronts[u],
                ));
                if wires@.contains(look.qubits[u]) {
                    let k = wires@.index_of(look.qubits[u]);
                    assert(wires@[k] == look.qubits[u]);
                    assert(look.qubits.index_of(wires@[k]) == u);
                    let front = so_far.fronts[u];
                    assert forall|j: int| 0 <= j < front.drop_first().len() implies (
                    #[trigger] front.drop_first()[j]) == front[j + 1] by {}
                }
            }
        }
    }
}

// --- Nothing is absorbed twice ------------------------------------------------------------------

/// Whether a site was taken on a wire: it is among what the wire had ahead at first and has no more.
pub open spec fn taken_on(look: Outlook, state: Taking, w: int, site: SiteModel) -> bool {
    let front = look.front(look.qubits[w]);
    exists|k: int|
        0 <= k < front.len() - state.fronts[w].len() && #[trigger] front[k] == Ahead::At(site)
}

/// Whether a thing absorbed is what stands at a site: an easy gate, or an emission travelling to the collector, now
/// resolved in place, that nobody had claimed, on the collector's own wires.
pub open spec fn rightly_taken(look: Outlook, site: SiteModel, op: BodyOpModel) -> bool {
    let inst = at_site(look.root, site);
    &&& stands_at(look.root, site.scope, site.node)
    &&& !look.claimed.contains(site)
    &&& look.site.scope.len() <= site.scope.len()
    &&& site.scope.take(look.site.scope.len() as int) == look.site.scope
    &&& wires_below(look.wires(site), look.scope().num_qubits)
    &&& look.wires(site).len() == inst.qubits.len()
    &&& look.wires(site).len() > 0
    &&& inst.op.fits(inst.qubits.len())
    &&& forall|k: int|
        0 <= k < look.wires(site).len() ==> look.qubits.contains(#[trigger] look.wires(site)[k])
    &&& match op {
        BodyOpModel::Gate(from, wires) => from == site && wires == look.wires(site) && sighting(inst)
            == Sighting::EasyGate,
        BodyOpModel::Local(emit, wires) => wires == look.wires(site) && inst.op is Emit && (
        inst.op->Emit_0).direction == Some(look.facing()) && emit
            == (inst.op->Emit_0).localized(),
    }
}

/// What was taken off a wire, in the order it was.
pub open spec fn pulled(look: Outlook, consumed: Seq<SiteModel>, qubit: usize) -> Seq<Ahead>
    decreases consumed.len(),
{
    if consumed.len() == 0 {
        Seq::empty()
    } else {
        let before = pulled(look, consumed.drop_last(), qubit);
        if look.wires(consumed.last()).contains(qubit) {
            before.push(Ahead::At(consumed.last()))
        } else {
            before
        }
    }
}

/// Whether what a wire has ahead is the rest of what it had ahead at first.
pub open spec fn rest_of(front: Seq<Ahead>, left: Seq<Ahead>) -> bool {
    left.len() <= front.len() && left == front.skip(front.len() - left.len())
}

/// Whether a wire had one site ahead nearer than another.
pub open spec fn nearer(look: Outlook, w: int, first: SiteModel, second: SiteModel) -> bool {
    let front = look.front(look.qubits[w]);
    exists|j: int, k: int|
        0 <= j < k < front.len() && #[trigger] front[j] == Ahead::At(first) && #[trigger] front[k]
            == Ahead::At(second)
}

/// Whether of two things taken one after the other, every wire both are on had the first nearer.
pub open spec fn in_wire_order(look: Outlook, consumed: Seq<SiteModel>) -> bool {
    forall|c: int, d: int, w: int|
        0 <= c < d < consumed.len() && 0 <= w < look.qubits.len() && look.wires(
            #[trigger] consumed[c],
        ).contains(#[trigger] look.qubits[w]) && look.wires(#[trigger] consumed[d]).contains(
            look.qubits[w],
        ) ==> nearer(look, w, consumed[c], consumed[d])
}

/// What holds of a walk under way: what it took, it took once, off every wire it covers, and in the order
/// each wire had it.
pub open spec fn proper(look: Outlook, state: Taking) -> bool {
    &&& look.fits(state)
    &&& state.content.len() == state.consumed.len()
    &&& state.consumed.no_duplicates()
    &&& forall|w: int|
        0 <= w < look.qubits.len() ==> rest_of(
            look.front(look.qubits[w]),
            #[trigger] state.fronts[w],
        )
    &&& forall|c: int|
        0 <= c < state.consumed.len() ==> rightly_taken(
            look,
            #[trigger] state.consumed[c],
            state.content[c],
        )
    &&& forall|c: int, w: int|
        0 <= c < state.consumed.len() && 0 <= w < look.qubits.len() && look.wires(
            #[trigger] state.consumed[c],
        ).contains(#[trigger] look.qubits[w]) ==> taken_on(look, state, w, state.consumed[c])
    &&& in_wire_order(look, state.consumed)
    &&& forall|w: int|
        0 <= w < look.qubits.len() ==> look.front(look.qubits[w]) == pulled(
            look,
            state.consumed,
            look.qubits[w],
        ) + #[trigger] state.fronts[w]
}

/// What a wire sees next was not taken yet.
proof fn lemma_next_is_new(look: Outlook, state: Taking, w: int)
    requires
        look.wf(),
        proper(look, state),
        0 <= w < look.qubits.len(),
        state.fronts[w].len() > 0,
        state.fronts[w][0] is At,
    ensures
        !state.consumed.contains(state.fronts[w][0]->At_0),
{
    let site = state.fronts[w][0]->At_0;
    lemma_outlook(look);
    let front = look.front(look.qubits[w]);
    let scope = look.scope();
    assert(rest_of(front, state.fronts[w]));
    let at = (front.len() - state.fronts[w].len()) as int;
    assert(front[at] == state.fronts[w][0]);
    assert(all_stand_on(scope, look.site.scope, look.qubits[w], state.fronts[w]));
    lemma_stop(look, look.qubits[w], state.fronts[w], 0);
    if state.consumed.contains(site) {
        let c = state.consumed.index_of(site);
        assert(state.consumed[c] == site);
        assert(look.wires(site).contains(look.qubits[w]));
        assert(taken_on(look, state, w, site));
        let k = choose|k: int|
            0 <= k < front.len() - state.fronts[w].len() && #[trigger] front[k] == Ahead::At(site);
        assert(scope.ops[scope.at(look.site.node)].node == look.site.node);
        lemma_past_distinct(
            scope,
            look.site.scope,
            scope.at(look.site.node),
            look.qubits[w],
            look.direction,
        );
        assert(front[k] != front[at]);
    }
}

/// Taking what wires see next, off every wire it covers, keeps a walk proper.
proof fn lemma_taking_is_proper(
    look: Outlook,
    state: Taking,
    w: int,
    op: BodyOpModel,
    next: Taking,
)
    requires
        look.wf(),
        proper(look, state),
        0 <= w < look.qubits.len(),
        state.fronts[w].len() > 0,
        state.fronts[w][0] is At,
        !look.claimed.contains(state.fronts[w][0]->At_0),
        ({
            let site = state.fronts[w][0]->At_0;
            let inst = at_site(look.root, site);
            let wires = look.wires(site);
            &&& next.content == state.content.push(op)
            &&& next.consumed == state.consumed.push(site)
            &&& next.fronts.len() == state.fronts.len()
            &&& forall|v: int|
                0 <= v < look.qubits.len() ==> #[trigger] next.fronts[v] == if wires.contains(
                    look.qubits[v],
                ) {
                    state.fronts[v].drop_first()
                } else {
                    state.fronts[v]
                }
            &&& forall|v: int|
                0 <= v < look.qubits.len() && wires.contains(#[trigger] look.qubits[v])
                    ==> state.fronts[v].len() > 0 && state.fronts[v][0] == Ahead::At(site)
            &&& forall|k: int| 0 <= k < wires.len() ==> look.qubits.contains(#[trigger] wires[k])
            &&& match op {
                BodyOpModel::Gate(from, on) => from == site && on == wires && sighting(inst)
                    == Sighting::EasyGate,
                BodyOpModel::Local(emit, on) => on == wires && inst.op is Emit && (
                inst.op->Emit_0).direction == Some(look.facing()) && emit
                    == (inst.op->Emit_0).localized(),
            }
        }),
    ensures
        proper(look, next),
{
    let site = state.fronts[w][0]->At_0;
    let wires = look.wires(site);
    assert(all_stand_on(look.scope(), look.site.scope, look.qubits[w], state.fronts[w]));
    lemma_stop(look, look.qubits[w], state.fronts[w], 0);
    lemma_next_is_new(look, state, w);
    assert(rightly_taken(look, site, op));
    assert forall|v: int| 0 <= v < look.qubits.len() implies rest_of(
        look.front(look.qubits[v]),
        #[trigger] next.fronts[v],
    ) && next.fronts[v].len() <= state.fronts[v].len() && all_stand_on(
        look.scope(),
        look.site.scope,
        look.qubits[v],
        next.fronts[v],
    ) by {
        let front = look.front(look.qubits[v]);
        let left = state.fronts[v];
        assert(rest_of(front, left));
        assert(all_stand_on(look.scope(), look.site.scope, look.qubits[v], state.fronts[v]));
        if wires.contains(look.qubits[v]) {
            assert(left.drop_first() =~= front.skip(front.len() - left.drop_first().len()));
            assert forall|j: int| 0 <= j < left.drop_first().len() implies (
            #[trigger] left.drop_first()[j]) == left[j + 1] by {}
        }
    }
    assert forall|c: int| 0 <= c < next.consumed.len() implies rightly_taken(
        look,
        #[trigger] next.consumed[c],
        next.content[c],
    ) by {
        if c < state.consumed.len() {
            assert(next.consumed[c] == state.consumed[c]);
            assert(next.content[c] == state.content[c]);
        }
    }
    assert forall|c: int, v: int|
        0 <= c < next.consumed.len() && 0 <= v < look.qubits.len() && look.wires(
            #[trigger] next.consumed[c],
        ).contains(#[trigger] look.qubits[v]) implies taken_on(look, next, v, next.consumed[c]) by {
        let front = look.front(look.qubits[v]);
        assert(rest_of(front, next.fronts[v]));
        assert(rest_of(front, state.fronts[v]));
        if c < state.consumed.len() {
            assert(next.consumed[c] == state.consumed[c]);
            assert(taken_on(look, state, v, state.consumed[c]));
            let k = choose|k: int|
                0 <= k < front.len() - state.fronts[v].len() && #[trigger] front[k] == Ahead::At(
                    state.consumed[c],
                );
            assert(front[k] == Ahead::At(next.consumed[c]));
        } else {
            let k = (front.len() - state.fronts[v].len()) as int;
            assert(front[k] == state.fronts[v][0]);
        }
    }
    assert forall|c: int, d: int, v: int|
        0 <= c < d < next.consumed.len() && 0 <= v < look.qubits.len() && look.wires(
            #[trigger] next.consumed[c],
        ).contains(#[trigger] look.qubits[v]) && look.wires(#[trigger] next.consumed[d]).contains(
            look.qubits[v],
        ) implies nearer(look, v, next.consumed[c], next.consumed[d]) by {
        let front = look.front(look.qubits[v]);
        assert(next.consumed[c] == state.consumed[c]);
        if d < state.consumed.len() {
            assert(next.consumed[d] == state.consumed[d]);
            assert(nearer(look, v, state.consumed[c], state.consumed[d]));
        } else {
            assert(rest_of(front, state.fronts[v]));
            assert(taken_on(look, state, v, state.consumed[c]));
            let j = choose|k: int|
                0 <= k < front.len() - state.fronts[v].len() && #[trigger] front[k] == Ahead::At(
                    state.consumed[c],
                );
            let k = (front.len() - state.fronts[v].len()) as int;
            assert(front[j] == Ahead::At(next.consumed[c]));
            assert(front[k] == state.fronts[v][0]);
            assert(front[k] == Ahead::At(next.consumed[d]));
        }
    }
    assert(next.consumed.drop_last() =~= state.consumed);
    assert(next.consumed.last() == site);
    assert forall|v: int| 0 <= v < look.qubits.len() implies look.front(look.qubits[v]) == pulled(
        look,
        next.consumed,
        look.qubits[v],
    ) + #[trigger] next.fronts[v] by {
        let front = look.front(look.qubits[v]);
        assert(front == pulled(look, state.consumed, look.qubits[v]) + state.fronts[v]);
        if wires.contains(look.qubits[v]) {
            assert(front =~= pulled(look, state.consumed, look.qubits[v]).push(Ahead::At(site))
                + state.fronts[v].drop_first());
        }
    }
}

proof fn lemma_drained_wire_is_proper(look: Outlook, w: int, state: Taking)
    requires
        look.wf(),
        proper(look, state),
    ensures
        drained_wire(look, w, state) matches Ok(after) ==> proper(look, after),
    decreases state.fronts[w].len(),
{
    if 0 <= w < state.fronts.len() {
        if let Ok(Some(site)) = next_open(state.fronts[w], look.claimed) {
            if folds_in(look, site) {
                let next = with_gate(look, w, site, state);
                lemma_outlook(look);
                assert(all_stand_on(look.scope(), look.site.scope, look.qubits[w], state.fronts[w]));
                lemma_stop(look, look.qubits[w], state.fronts[w], 0);
                let wires = look.wires(site);
                let inst = at_site(look.root, site);
                assert(inst.qubits.len() == 1);
                let place = wires.index_of(look.qubits[w]);
                assert(wires[place] == look.qubits[w]);
                assert(place == 0);
                assert forall|v: int| 0 <= v < look.qubits.len() implies (wires.contains(
                    #[trigger] look.qubits[v],
                ) <==> v == w) by {
                    if wires.contains(look.qubits[v]) {
                        let k = wires.index_of(look.qubits[v]);
                        assert(wires[k] == look.qubits[v]);
                        assert(look.qubits[v] == look.qubits[w]);
                    }
                }
                lemma_taking_is_proper(look, state, w, BodyOpModel::Gate(site, wires), next);
                lemma_drained_wire_is_proper(look, w, next);
            }
        }
    }
}

proof fn lemma_drained_is_proper(look: Outlook, count: nat, state: Taking)
    requires
        look.wf(),
        proper(look, state),
    ensures
        drained(look, count, state) matches Ok(after) ==> proper(look, after),
    decreases count,
{
    if count > 0 {
        lemma_drained_is_proper(look, (count - 1) as nat, state);
        if let Ok(so_far) = drained(look, (count - 1) as nat, state) {
            lemma_drained_wire_is_proper(look, count - 1, so_far);
        }
    }
}

/// A layer found is next on some wire, may come off, and is reached by all its wires.
proof fn lemma_layer_found(look: Outlook, fronts: Seq<Seq<Ahead>>, from: int)
    requires
        0 <= from <= fronts.len(),
    ensures
        layer_from(look, fronts, from) matches Ok(Some(site)) ==> exists|w: int|
            from <= w < fronts.len() && #[trigger] next_open(fronts[w], look.claimed) == Ok::<
                Option<SiteModel>,
                SamplexError,
            >(Some(site)) && may_come_off(look, site) && all_reach(
                look,
                fronts,
                look.wires(site),
                site,
                0,
            ) == Ok::<bool, SamplexError>(true),
    decreases fronts.len() - from,
{
    if from < fronts.len() {
        lemma_layer_found(look, fronts, from + 1);
        assert(next_open(fronts[from], look.claimed) == next_open(fronts[from], look.claimed));
    }
}

/// A walk that took nothing yet is proper, and every round keeps it so.
proof fn lemma_rounds_are_proper(look: Outlook, state: Taking)
    requires
        look.wf(),
        proper(look, state),
    ensures
        rounds(look, state) matches Ok(after) ==> proper(look, after),
    decreases left_ahead(state.fronts),
{
    lemma_drained_is_proper(look, state.fronts.len(), state);
    if let Ok(so_far) = drained(look, state.fronts.len(), state) {
        lemma_layer_found(look, so_far.fronts, 0);
        if let Ok(Some(site)) = layer_from(look, so_far.fronts, 0) {
            let next = with_layer(look, site, so_far);
            let w = choose|w: int|
                0 <= w < so_far.fronts.len() && #[trigger] next_open(so_far.fronts[w], look.claimed)
                    == Ok::<Option<SiteModel>, SamplexError>(Some(site)) && may_come_off(look, site)
                    && all_reach(look, so_far.fronts, look.wires(site), site, 0) == Ok::<
                    bool,
                    SamplexError,
                >(true);
            let wires = look.wires(site);
            lemma_all_reach(look, so_far.fronts, wires, site, 0);
            lemma_outlook(look);
            assert forall|v: int|
                0 <= v < look.qubits.len() && wires.contains(#[trigger] look.qubits[v]) implies
                so_far.fronts[v].len() > 0 && so_far.fronts[v][0] == Ahead::At(site) by {
                let k = wires.index_of(look.qubits[v]);
                assert(wires[k] == look.qubits[v]);
                assert(look.qubits.index_of(wires[k]) == v);
            }
            let op = BodyOpModel::Local((at_site(look.root, site).op->Emit_0).localized(), wires);
            lemma_taking_is_proper(look, so_far, w, op, next);
            if left_ahead(next.fronts) < left_ahead(state.fronts) {
                lemma_rounds_are_proper(look, next);
            }
        }
    }
}

/// A walk takes nothing twice, nothing claimed, and nothing off a wire the collector is not on: what it
/// takes off each wire is a run of what stood nearest on it, nearest first.
pub proof fn lemma_walk_takes_each_once(look: Outlook)
    requires
        look.wf(),
        rounds(look, look.start()) is Ok,
    ensures
        proper(look, rounds(look, look.start())->Ok_0),
{
    lemma_start_fits(look);
    let start = look.start();
    assert forall|w: int| 0 <= w < look.qubits.len() implies rest_of(
        look.front(look.qubits[w]),
        #[trigger] start.fronts[w],
    ) by {
        let front = look.front(look.qubits[w]);
        assert(front.skip(0) =~= front);
    }
    assert forall|w: int| 0 <= w < look.qubits.len() implies look.front(look.qubits[w]) == pulled(
        look,
        start.consumed,
        look.qubits[w],
    ) + #[trigger] start.fronts[w] by {
        let front = look.front(look.qubits[w]);
        assert(Seq::<Ahead>::empty() + front =~= front);
    }
    lemma_rounds_are_proper(look, start);
}

// --- Planning -----------------------------------------------------------------------------------

/// What one collector takes over from around it: what it declares, everything absorbed, in composition
/// order, and where that stood.
#[verifier::ext_equal]
pub struct PlanModel {
    pub site: SiteModel,
    pub collect: CollectModel,
    pub content: Seq<BodyOpModel>,
    pub consumed: Seq<SiteModel>,
}

/// How a collector looks out one way.
pub open spec fn outlook(
    root: CircuitModel,
    site: SiteModel,
    direction: Direction,
    claimed: Set<SiteModel>,
) -> Outlook {
    Outlook { root, site, qubits: at_site(root, site).qubits, direction, claimed }
}

/// What one collector takes over: what it finds to the left, which comes back outermost last and so is
/// turned around, then what it finds to the right.
pub open spec fn planned(root: CircuitModel, site: SiteModel, claimed: Set<SiteModel>) -> Result<
    PlanModel,
    SamplexError,
> {
    let left = outlook(root, site, Direction::Left, claimed);
    let right = outlook(root, site, Direction::Right, claimed);
    match rounds(left, left.start()) {
        Err(error) => Err(error),
        Ok(before) => match rounds(right, right.start()) {
            Err(error) => Err(error),
            Ok(after) => Ok(
                PlanModel {
                    site,
                    collect: at_site(root, site).op.collect()->0,
                    content: before.content.reverse() + after.content,
                    consumed: before.consumed + after.consumed,
                },
            ),
        },
    }
}

/// Everything some plans take over.
pub open spec fn claimed_by(plans: Seq<PlanModel>) -> Set<SiteModel> {
    Set::new(
        |site: SiteModel|
            exists|p: int| 0 <= p < plans.len() && (#[trigger] plans[p]).consumed.contains(site),
    )
}

/// What each of some collectors takes over, one after another. First come, first served: a claimed site is a
/// barrier to the next collector.
pub open spec fn plans_for(root: CircuitModel, sites: Seq<SiteModel>) -> Result<
    Seq<PlanModel>,
    SamplexError,
>
    decreases sites.len(),
{
    if sites.len() == 0 {
        Ok(Seq::empty())
    } else {
        match plans_for(root, sites.drop_last()) {
            Err(error) => Err(error),
            Ok(plans) => match planned(root, sites.last(), claimed_by(plans)) {
                Err(error) => Err(error),
                Ok(plan) => Ok(plans.push(plan)),
            },
        }
    }
}

/// Everything some plans take over, one plan after another.
pub open spec fn all_consumed(plans: Seq<PlanModel>) -> Seq<SiteModel>
    decreases plans.len(),
{
    if plans.len() == 0 {
        Seq::empty()
    } else {
        all_consumed(plans.drop_last()) + plans.last().consumed
    }
}

/// Whether wires are distinct ones of a frame.
pub open spec fn on_frame(frame: Seq<usize>, wires: Seq<usize>) -> bool {
    &&& wires.no_duplicates()
    &&& wires.len() <= usize::MAX
    &&& forall|k: int| 0 <= k < wires.len() ==> frame.contains(#[trigger] wires[k])
}

/// Whether a thing absorbed can be put into a body on some wires.
pub open spec fn placeable_op(root: CircuitModel, frame: Seq<usize>, op: BodyOpModel) -> bool {
    match op {
        BodyOpModel::Gate(site, wires) => on_frame(frame, wires) && stands_at(
            root,
            site.scope,
            site.node,
        ) && at_site(root, site).op.fits(wires.len()) && at_site(root, site).op is Gate,
        BodyOpModel::Local(emit, wires) => on_frame(frame, wires) && OperationModel::Emit(emit).fits(
            wires.len(),
        ),
    }
}

/// What holds of a plan: what it takes over is there, is no box, was claimed by nobody, and is taken over
/// once.
pub open spec fn plan_proper(root: CircuitModel, plan: PlanModel, claimed: Set<SiteModel>) -> bool {
    &&& stands_at(root, plan.site.scope, plan.site.node)
    &&& at_site(root, plan.site).op.collect() == Some(plan.collect)
    &&& plan.consumed.no_duplicates()
    &&& forall|c: int|
        0 <= c < plan.consumed.len() ==> {
            let site = #[trigger] plan.consumed[c];
            &&& stands_at(root, site.scope, site.node)
            &&& !at_site(root, site).op.is_box()
            &&& !claimed.contains(site)
        }
    &&& forall|k: int|
        0 <= k < plan.content.len() ==> placeable_op(
            root,
            at_site(root, plan.site).qubits,
            #[trigger] plan.content[k],
        )
}

/// What a walk took is on the side it went.
proof fn lemma_taken_side(look: Outlook, state: Taking, c: int)
    requires
        look.wf(),
        proper(look, state),
        0 <= c < state.consumed.len(),
    ensures
        within_run(
            match look.direction {
                Direction::Left => look.scope().ops.take(look.scope().at(look.site.node)),
                Direction::Right => look.scope().ops.skip(look.scope().at(look.site.node) + 1),
            },
            look.site.scope,
            state.consumed[c],
        ),
{
    lemma_outlook(look);
    let site = state.consumed[c];
    assert(rightly_taken(look, site, state.content[c]));
    let wire = look.wires(site)[0];
    assert(look.qubits.contains(look.wires(site)[0]));
    let w = look.qubits.index_of(wire);
    assert(look.qubits[w] == wire);
    assert(look.wires(site).contains(wire));
    assert(taken_on(look, state, w, site));
    let front = look.front(look.qubits[w]);
    let k = choose|k: int|
        0 <= k < front.len() - state.fronts[w].len() && #[trigger] front[k] == Ahead::At(site);
    let scope = look.scope();
    assert(scope.ops[scope.at(look.site.node)].node == look.site.node);
    lemma_past_distinct(
        scope,
        look.site.scope,
        scope.at(look.site.node),
        look.qubits[w],
        look.direction,
    );
    assert(front[k] == Ahead::At(site));
}

/// A plan made is proper.
proof fn lemma_planned(root: CircuitModel, site: SiteModel, claimed: Set<SiteModel>)
    requires
        root.wf(),
        stands_at(root, site.scope, site.node),
        at_site(root, site).op.is_collector(),
        planned(root, site, claimed) is Ok,
    ensures
        plan_proper(root, planned(root, site, claimed)->Ok_0, claimed),
{
    let plan = planned(root, site, claimed)->Ok_0;
    let left = outlook(root, site, Direction::Left, claimed);
    let right = outlook(root, site, Direction::Right, claimed);
    let before = rounds(left, left.start())->Ok_0;
    let after = rounds(right, right.start())->Ok_0;
    lemma_walk_takes_each_once(left);
    lemma_walk_takes_each_once(right);
    lemma_outlook(left);
    let scope = left.scope();
    let frame = at_site(root, site).qubits;
    assert(scope.ops[scope.at(site.node)].node == site.node);
    assert forall|c: int| 0 <= c < plan.consumed.len() implies ({
        let other = #[trigger] plan.consumed[c];
        &&& stands_at(root, other.scope, other.node)
        &&& !at_site(root, other).op.is_box()
        &&& !claimed.contains(other)
    }) by {
        if c < before.consumed.len() {
            assert(plan.consumed[c] == before.consumed[c]);
            assert(rightly_taken(left, before.consumed[c], before.content[c]));
        } else {
            let d = c - before.consumed.len();
            assert(plan.consumed[c] == after.consumed[d]);
            assert(rightly_taken(right, after.consumed[d], after.content[d]));
        }
    }
    assert forall|k: int| 0 <= k < plan.content.len() implies placeable_op(
        root,
        frame,
        #[trigger] plan.content[k],
    ) by {
        if k < before.content.len() {
            let c = before.content.len() - 1 - k;
            assert(plan.content[k] == before.content[c]);
            assert(rightly_taken(left, before.consumed[c], before.content[c]));
            assert(on_frame(frame, left.wires(before.consumed[c])));
        } else {
            let c = k - before.content.len();
            assert(plan.content[k] == after.content[c]);
            assert(rightly_taken(right, after.consumed[c], after.content[c]));
            assert(on_frame(frame, right.wires(after.consumed[c])));
        }
    }
    assert forall|i: int, j: int| 0 <= i < before.consumed.len() && 0 <= j < after.consumed.len() implies
        before.consumed[i] != after.consumed[j] by {
        lemma_taken_side(left, before, i);
        lemma_taken_side(right, after, j);
        lemma_sides_apart(
            scope,
            site.scope,
            scope.at(site.node),
            before.consumed[i],
            after.consumed[j],
        );
    }
}

/// Plans made for collectors are each proper, and take nothing over twice.
pub proof fn lemma_plans_take_each_once(root: CircuitModel, sites: Seq<SiteModel>)
    requires
        root.wf(),
        forall|k: int|
            0 <= k < sites.len() ==> stands_at(root, (#[trigger] sites[k]).scope, sites[k].node)
                && at_site(root, sites[k]).op.is_collector(),
        plans_for(root, sites) is Ok,
    ensures
        ({
            let plans = plans_for(root, sites)->Ok_0;
            &&& plans.len() == sites.len()
            &&& forall|p: int|
                0 <= p < plans.len() ==> (#[trigger] plans[p]).site == sites[p] && plan_proper(
                    root,
                    plans[p],
                    Set::empty(),
                )
            &&& all_consumed(plans).no_duplicates()
            &&& forall|site: SiteModel| #[trigger]
                all_consumed(plans).contains(site) <==> claimed_by(plans).contains(site)
            &&& forall|c: int|
                0 <= c < all_consumed(plans).len() ==> {
                    let site = #[trigger] all_consumed(plans)[c];
                    &&& stands_at(root, site.scope, site.node)
                    &&& !at_site(root, site).op.is_box()
                }
        }),
    decreases sites.len(),
{
    let plans = plans_for(root, sites)->Ok_0;
    if sites.len() > 0 {
        let front = sites.drop_last();
        assert forall|k: int| 0 <= k < front.len() implies stands_at(
            root,
            (#[trigger] front[k]).scope,
            front[k].node,
        ) && at_site(root, front[k]).op.is_collector() by {
            assert(sites[k] == front[k]);
        }
        lemma_plans_take_each_once(root, front);
        let earlier = plans_for(root, front)->Ok_0;
        let claimed = claimed_by(earlier);
        assert(sites[sites.len() - 1] == sites.last());
        lemma_planned(root, sites.last(), claimed);
        let plan = planned(root, sites.last(), claimed)->Ok_0;
        assert(plans == earlier.push(plan));
        assert(plans.drop_last() =~= earlier);
        let before = all_consumed(earlier);
        let whole = all_consumed(plans);
        assert(whole == before + plan.consumed);
        assert forall|i: int, j: int| 0 <= i < before.len() && 0 <= j < plan.consumed.len() implies before[i]
            != plan.consumed[j] by {
            assert(before.contains(before[i]));
            assert(claimed.contains(before[i]));
        }
        assert forall|site: SiteModel| #[trigger] whole.contains(site) <==> claimed_by(plans).contains(
            site,
        ) by {
            if whole.contains(site) {
                let c = whole.index_of(site);
                if c < before.len() {
                    assert(before[c] == site);
                    assert(before.contains(site));
                    let p = choose|p: int|
                        0 <= p < earlier.len() && (#[trigger] earlier[p]).consumed.contains(site);
                    assert(plans[p].consumed.contains(site));
                } else {
                    assert(plan.consumed[c - before.len()] == site);
                    assert(plans[earlier.len() as int].consumed.contains(site));
                }
            }
            if claimed_by(plans).contains(site) {
                let p = choose|p: int|
                    0 <= p < plans.len() && (#[trigger] plans[p]).consumed.contains(site);
                if p < earlier.len() {
                    assert(earlier[p].consumed.contains(site));
                    assert(before.contains(site));
                    assert(whole[before.index_of(site)] == site);
                } else {
                    let c = plan.consumed.index_of(site);
                    assert(whole[before.len() + c] == site);
                }
            }
        }
        assert forall|c: int| 0 <= c < whole.len() implies ({
            let site = #[trigger] whole[c];
            &&& stands_at(root, site.scope, site.node)
            &&& !at_site(root, site).op.is_box()
        }) by {
            if c < before.len() {
                assert(whole[c] == before[c]);
            } else {
                assert(whole[c] == plan.consumed[c - before.len()]);
            }
        }
        assert forall|p: int| 0 <= p < plans.len() implies (#[trigger] plans[p]).site == sites[p]
            && plan_proper(root, plans[p], Set::empty()) by {
            if p < earlier.len() {
                assert(plans[p] == earlier[p]);
                assert(front[p] == sites[p]);
            }
        }
    }
}

/// What one collector takes over from around it.
struct Absorption {
    collector: Site,
    /// The collector's existing descriptors, which absorption does not change.
    spec: Collect,
    /// Everything absorbed, in composition order, which becomes the collector's body as it is.
    content: Vec<BodyOp>,
    /// Every site this collector took over, to be deleted from wherever it was.
    consumed: Vec<Site>,
}

impl View for Absorption {
    type V = PlanModel;

    closed spec fn view(&self) -> PlanModel {
        PlanModel {
            site: self.collector@,
            collect: self.spec@,
            content: content_model(self.content@),
            consumed: sites_model(self.consumed@),
        }
    }
}

spec fn plans_model(plans: Seq<Absorption>) -> Seq<PlanModel> {
    plans.map_values(|plan: Absorption| plan@)
}

/// Move everything of a list to the end of another, last first.
fn extend_reversed(list: &mut Vec<BodyOp>, from: Vec<BodyOp>)
    ensures
        content_model(final(list)@) == content_model(old(list)@) + content_model(from@).reverse(),
{
    let ghost before = content_model(list@);
    let ghost given = content_model(from@);
    let mut from = from;
    assert(before + Seq::<BodyOpModel>::empty() =~= before);
    assert(given.skip(given.len() as int).reverse() =~= Seq::<BodyOpModel>::empty());
    while from.len() > 0
        invariant
            from@.len() <= given.len(),
            content_model(from@) == given.take(from@.len() as int),
            content_model(list@) == before + given.skip(from@.len() as int).reverse(),
        decreases from.len(),
    {
        let ghost left = from@;
        if let Some(op) = from.pop() {
            let ghost listed = list@;
            let ghost said = op@;
            list.push(op);
            proof {
                assert(said == given[left.len() - 1]) by {
                    assert(content_model(left)[left.len() - 1] == said);
                }
                assert(content_model(from@) =~= given.take(from@.len() as int)) by {
                    assert forall|k: int| 0 <= k < from@.len() implies content_model(from@)[k]
                        == given[k] by {
                        assert(content_model(left)[k] == given.take(left.len() as int)[k]);
                    }
                }
                assert(content_model(list@) =~= content_model(listed).push(said));
                assert(given.skip(from@.len() as int).reverse() =~= given.skip(
                    left.len() as int,
                ).reverse().push(said));
            }
        }
    }
    assert(given.skip(0) =~= given);
}

/// Move everything of a list to the end of another.
fn extend_content(list: &mut Vec<BodyOp>, from: Vec<BodyOp>)
    ensures
        content_model(final(list)@) == content_model(old(list)@) + content_model(from@),
{
    let ghost before = content_model(list@);
    let ghost given = content_model(from@);
    let mut turned: Vec<BodyOp> = Vec::new();
    assert(content_model(turned@) =~= Seq::<BodyOpModel>::empty());
    extend_reversed(&mut turned, from);
    assert(content_model(turned@) =~= given.reverse());
    extend_reversed(list, turned);
    assert(given.reverse().reverse() =~= given);
}

fn extend_sites(list: &mut Vec<Site>, from: &Vec<Site>)
    ensures
        sites_model(final(list)@) == sites_model(old(list)@) + sites_model(from@),
{
    let ghost before = sites_model(list@);
    let ghost given = sites_model(from@);
    let mut i: usize = 0;
    assert(before + given.take(0) =~= before);
    while i < from.len()
        invariant
            i <= from.len(),
            given == sites_model(from@),
            sites_model(list@) == before + given.take(i as int),
        decreases from.len() - i,
    {
        let ghost listed = list@;
        list.push(from[i].clone());
        proof {
            assert(sites_model(list@) =~= sites_model(listed).push(given[i as int]));
            assert(sites_model(list@) =~= before + given.take(i + 1));
        }
        i += 1;
    }
    assert(given.take(i as int) =~= given);
}

/// Claim sites.
fn claim(claimed: &mut PathSet, sites: &Vec<Site>, Ghost(claims): Ghost<Set<SiteModel>>)
    requires
        holds_sites(old(claimed)@, claims),
    ensures
        holds_sites(final(claimed)@, claims.union(sites_model(sites@).to_set())),
{
    let ghost model = sites_model(sites@);
    let mut i: usize = 0;
    assert(claims.union(model.take(0).to_set()) =~= claims);
    while i < sites.len()
        invariant
            i <= sites.len(),
            model == sites_model(sites@),
            holds_sites(claimed@, claims.union(model.take(i as int).to_set())),
        decreases sites.len() - i,
    {
        let ghost known = claimed@;
        let ghost before = claims.union(model.take(i as int).to_set());
        let ghost after = claims.union(model.take(i + 1).to_set());
        claimed.insert(sites[i].path());
        proof {
            let added = model[i as int];
            assert(added == sites@[i as int]@);
            assert(model.take(i + 1) =~= model.take(i as int).push(added));
            assert forall|site: SiteModel| #[trigger] claimed@.contains(path_of(site))
                <==> after.contains(site) by {
                lemma_paths_differ(site, added);
                assert(known.contains(path_of(site)) <==> before.contains(site));
                let more = model.take(i + 1);
                let done = model.take(i as int);
                assert(more[i as int] == added);
                if done.contains(site) {
                    assert(more[done.index_of(site)] == site);
                }
                if more.contains(site) && site != added {
                    assert(done[more.index_of(site)] == site);
                }
            }
        }
        i += 1;
    }
    assert(model.take(i as int) =~= model);
}

proof fn lemma_plans_prefix(root: CircuitModel, sites: Seq<SiteModel>, k: int)
    requires
        0 <= k <= sites.len(),
        plans_for(root, sites.take(k)) is Err,
    ensures
        plans_for(root, sites) == plans_for(root, sites.take(k)),
    decreases sites.len() - k,
{
    if k == sites.len() {
        assert(sites.take(k) =~= sites);
    } else {
        assert(sites.take(k + 1).drop_last() =~= sites.take(k));
        lemma_plans_prefix(root, sites, k + 1);
    }
}

/// Plan every collector's absorption.
///
/// The sites come innermost first, so a collector inside a box gets first refusal on the content in there:
/// it is nearer to that content than anything outside, and an outer collector reaching in would starve it.
/// Within one scope circuit order decides, which makes the winner deterministic.
fn plan_absorptions(root: &Circuit, sites: &Vec<Site>) -> (result: Result<
    Vec<Absorption>,
    SamplexError,
>)
    requires
        root@.wf(),
        forall|k: int|
            0 <= k < sites@.len() ==> stands_at(
                root@,
                (#[trigger] sites_model(sites@)[k]).scope,
                sites_model(sites@)[k].node,
            ) && at_site(root@, sites_model(sites@)[k]).op.is_collector(),
    ensures
        match plans_for(root@, sites_model(sites@)) {
            Ok(said) => result matches Ok(plans) && plans_model(plans@) == said && (forall|p: int|
                0 <= p < said.len() ==> (#[trigger] said[p]).content.len() <= usize::MAX),
            Err(error) => result matches Err(reported) && reported == error,
        },
{
    let ghost model = sites_model(sites@);
    let mut plans: Vec<Absorption> = Vec::new();
    let mut claimed = PathSet::new();
    proof {
        assert(plans_model(plans@) =~= Seq::<PlanModel>::empty());
        assert(claimed_by(Seq::empty()) =~= Set::<SiteModel>::empty());
        assert(holds_sites(claimed@, claimed_by(plans_model(plans@))));
    }
    let mut i: usize = 0;
    while i < sites.len()
        invariant
            i <= sites.len(),
            root@.wf(),
            model == sites_model(sites@),
            forall|k: int|
                0 <= k < sites@.len() ==> stands_at(
                    root@,
                    (#[trigger] model[k]).scope,
                    model[k].node,
                ) && at_site(root@, model[k]).op.is_collector(),
            plans_for(root@, model.take(i as int)) == Ok::<Seq<PlanModel>, SamplexError>(
                plans_model(plans@),
            ),
            holds_sites(claimed@, claimed_by(plans_model(plans@))),
            forall|p: int|
                0 <= p < plans@.len() ==> (#[trigger] plans_model(plans@)[p]).content.len()
                    <= usize::MAX,
        decreases sites.len() - i,
    {
        let ghost earlier = plans_model(plans@);
        let ghost claims = claimed_by(earlier);
        let collector = sites[i].clone();
        let ghost site = model[i as int];
        proof {
            assert(model.take(i + 1).drop_last() =~= model.take(i as int));
            assert(model.take(i + 1).last() == site);
            assert(site == sites@[i as int]@);
            lemma_stands_at_exists(root@, site.scope, site.node);
        }
        let inst = match collector.instruction(root) {
            Ok(inst) => inst,
            Err(error) => {
                return Err(error);
            },
        };
        let spec = match crate::emission_circuit_navigation::collect_annotation(inst) {
            Some(spec) => spec,
            None => {
                assert(false);
                Collect::bare(crate::annotated_circuit::SynthesizerType::RzSx)
            },
        };
        let qubits = clone_list(&inst.qubits);
        let ghost left_look = outlook(root@, site, Direction::Left, claims);
        let ghost right_look = outlook(root@, site, Direction::Right, claims);
        let left = match walk_absorb(
            root,
            &collector,
            Direction::Left,
            &qubits,
            &claimed,
            Ghost(left_look),
        ) {
            Ok(walk) => walk,
            Err(error) => {
                proof {
                    lemma_plans_prefix(root@, model, i + 1);
                }
                return Err(error);
            },
        };
        let right = match walk_absorb(
            root,
            &collector,
            Direction::Right,
            &qubits,
            &claimed,
            Ghost(right_look),
        ) {
            Ok(walk) => walk,
            Err(error) => {
                proof {
                    lemma_plans_prefix(root@, model, i + 1);
                }
                return Err(error);
            },
        };
        // Walking leftward visits the outermost content last, so it comes back reversed.
        let mut content: Vec<BodyOp> = Vec::new();
        assert(content_model(content@) =~= Seq::<BodyOpModel>::empty());
        extend_reversed(&mut content, left.content);
        extend_content(&mut content, right.content);
        let mut consumed = left.consumed;
        extend_sites(&mut consumed, &right.consumed);
        claim(&mut claimed, &consumed, Ghost(claims));
        let length: usize = content.len();
        let plan = Absorption { collector, spec, content, consumed };
        let ghost said = plan@;
        proof {
            let before = rounds(left_look, left_look.start())->Ok_0;
            let after = rounds(right_look, right_look.start())->Ok_0;
            assert(said.content =~= before.content.reverse() + after.content);
            assert(said.consumed =~= before.consumed + after.consumed);
            assert(said =~= planned(root@, site, claims)->Ok_0);
            assert(claims.union(said.consumed.to_set()) =~= claimed_by(earlier.push(said))) by {
                let more = earlier.push(said);
                assert forall|other: SiteModel| claims.union(said.consumed.to_set()).contains(other)
                    <==> claimed_by(more).contains(other) by {
                    if claims.contains(other) {
                        let p = choose|p: int|
                            0 <= p < earlier.len() && (#[trigger] earlier[p]).consumed.contains(other);
                        assert(more[p].consumed.contains(other));
                    }
                    if said.consumed.contains(other) {
                        assert(more[earlier.len() as int].consumed.contains(other));
                    }
                    if claimed_by(more).contains(other) {
                        let p = choose|p: int|
                            0 <= p < more.len() && (#[trigger] more[p]).consumed.contains(other);
                        if p < earlier.len() {
                            assert(earlier[p].consumed.contains(other));
                        }
                    }
                }
            }
        }
        plans.push(plan);
        proof {
            assert(plans_model(plans@) =~= earlier.push(said));
            assert(said.content.len() == length);
            assert forall|p: int| 0 <= p < plans@.len() implies (
            #[trigger] plans_model(plans@)[p]).content.len() <= usize::MAX by {
                if p < earlier.len() {
                    assert(plans_model(plans@)[p] == earlier[p]);
                }
            }
        }
        i += 1;
    }
    assert(model.take(i as int) =~= model);
    Ok(plans)
}

// --- Rewriting ----------------------------------------------------------------------------------

/// Where wires come among a frame's.
pub open spec fn places_in(frame: Seq<usize>, wires: Seq<usize>) -> Seq<usize> {
    wires.map_values(|wire: usize| frame.index_of(wire) as usize)
}

/// A body with one more thing absorbed at its end, remapped into the collector's own frame.
pub open spec fn with_absorbed(
    root: CircuitModel,
    frame: Seq<usize>,
    out: CircuitModel,
    op: BodyOpModel,
) -> CircuitModel {
    match op {
        BodyOpModel::Gate(site, wires) => out.with(
            next_instruction(
                out,
                at_site(root, site).op,
                at_site(root, site).params,
                Seq::empty(),
                places_in(frame, wires),
                Seq::empty(),
            ),
        ),
        BodyOpModel::Local(emit, wires) => out.with(
            next_instruction(
                out,
                OperationModel::Emit(emit),
                Seq::empty(),
                Seq::empty(),
                places_in(frame, wires),
                Seq::empty(),
            ),
        ),
    }
}

/// The body made of what a collector absorbed, one thing after another.
pub open spec fn body_from(
    root: CircuitModel,
    frame: Seq<usize>,
    num_clbits: nat,
    content: Seq<BodyOpModel>,
) -> CircuitModel
    decreases content.len(),
{
    if content.len() == 0 {
        CircuitModel::bare(frame.len(), num_clbits)
    } else {
        with_absorbed(
            root,
            frame,
            body_from(root, frame, num_clbits, content.drop_last()),
            content.last(),
        )
    }
}

/// The body a plan gives its collector.
pub open spec fn plan_body(root: CircuitModel, plan: PlanModel) -> CircuitModel {
    let inst = at_site(root, plan.site);
    body_from(root, inst.qubits, inst.clbits.len(), plan.content)
}

/// A circuit once collectors were given their bodies, one after another.
pub open spec fn rewritten(root: CircuitModel, plans: Seq<PlanModel>) -> CircuitModel
    decreases plans.len(),
{
    if plans.len() == 0 {
        root
    } else {
        let before = rewritten(root, plans.drop_last());
        let plan = plans.last();
        with_scope(
            before,
            plan.site.scope,
            with_op(
                scope_of(before, plan.site.scope)->Ok_0,
                plan.site.node,
                collect_box(plan.collect),
                plan_body(root, plan),
            ),
        )
    }
}

/// A circuit once instructions were taken out of it, one after another.
pub open spec fn cleared(root: CircuitModel, sites: Seq<SiteModel>) -> CircuitModel
    decreases sites.len(),
{
    if sites.len() == 0 {
        root
    } else {
        let before = cleared(root, sites.drop_last());
        let site = sites.last();
        with_scope(
            before,
            site.scope,
            without(scope_of(before, site.scope)->Ok_0, site.node),
        )
    }
}

/// What absorbing dressing makes of a circuit: innermost first, every collector takes over what it can, then
/// every collector is given its body, then everything taken over leaves where it was.
pub open spec fn absorption(root: CircuitModel) -> Result<CircuitModel, SamplexError> {
    match swept(root, Seq::empty(), ScopeOrder::Innermost) {
        Err(error) => Err(error),
        Ok(sites) => match plans_for(root, sites) {
            Err(error) => Err(error),
            Ok(plans) => Ok(cleared(rewritten(root, plans), all_consumed(plans))),
        },
    }
}

pub(crate) proof fn lemma_places(frame: Seq<usize>, wires: Seq<usize>)
    requires
        on_frame(frame, wires),
        frame.len() <= usize::MAX,
    ensures
        wires_below(places_in(frame, wires), frame.len()),
        places_in(frame, wires).len() == wires.len(),
{
    let places = places_in(frame, wires);
    assert forall|k: int| 0 <= k < places.len() implies (#[trigger] places[k]) < frame.len() && frame[places[k] as int]
        == wires[k] by {
        assert(frame.contains(wires[k]));
    }
    assert forall|i: int, j: int| 0 <= i < places.len() && 0 <= j < places.len() && i != j implies places[i]
        != places[j] by {
        assert(frame[places[i] as int] == wires[i]);
        assert(frame[places[j] as int] == wires[j]);
        assert(wires[i] != wires[j]);
    }
}

/// Build a collector's body from what it absorbed, remapped into its own frame.
fn build_body(root: &Circuit, plan: &Absorption) -> (result: Result<Circuit, SamplexError>)
    requires
        root@.wf(),
        plan_proper(root@, plan@, Set::empty()),
    ensures
        result matches Ok(body) && body@ == plan_body(root@, plan@) && body@.wf()
            && body@.num_qubits == at_site(root@, plan@.site).qubits.len() && body@.num_clbits
            == at_site(root@, plan@.site).clbits.len(),
{
    let ghost content = plan@.content;
    proof {
        lemma_stands_at_exists(root@, plan@.site.scope, plan@.site.node);
    }
    let inst = match plan.collector.instruction(root) {
        Ok(inst) => inst,
        Err(error) => {
            return Err(error);
        },
    };
    let ghost frame = inst@.qubits;
    proof {
        let scope = scope_of(root@, plan@.site.scope)->Ok_0;
        assert(scope.get(plan@.site.node).wf(scope.num_qubits, scope.num_clbits));
    }
    let width: usize = inst.qubits.len();
    let num_clbits: usize = inst.clbits.len();
    let mut body = new_dag_body(width, num_clbits, plan.content.len());
    assert(content.take(0) =~= Seq::<BodyOpModel>::empty());
    let mut i: usize = 0;
    while i < plan.content.len()
        invariant
            i <= plan.content.len(),
            root@.wf(),
            plan_proper(root@, plan@, Set::empty()),
            content == plan@.content,
            content.len() == plan.content@.len(),
            inst@ == at_site(root@, plan@.site),
            frame == inst@.qubits,
            frame.no_duplicates(),
            width == frame.len(),
            num_clbits == inst@.clbits.len(),
            body@ == body_from(root@, frame, num_clbits as nat, content.take(i as int)),
            body@.wf(),
            body@.fresh(),
            body@.num_qubits == width,
            body@.num_clbits == num_clbits,
        decreases plan.content.len() - i,
    {
        proof {
            assert(content.take(i + 1).drop_last() =~= content.take(i as int));
            assert(content.take(i + 1).last() == content[i as int]);
            assert(content[i as int] == plan.content@[i as int]@);
            assert(placeable_op(root@, frame, content[i as int]));
        }
        let none: Vec<usize> = Vec::new();
        assert(none@ =~= Seq::<usize>::empty());
        assert(wires_below(none@, num_clbits as nat));
        match &plan.content[i] {
            BodyOp::Gate(site, wires) => {
                proof {
                    lemma_stands_at_exists(root@, site@.scope, site@.node);
                    lemma_places(frame, wires@);
                }
                let gate = match site.instruction(root) {
                    Ok(gate) => gate,
                    Err(error) => {
                        return Err(error);
                    },
                };
                let qargs = remap(&inst.qubits, wires);
                append(
                    &mut body,
                    gate.op.clone(),
                    clone_params(&gate.params),
                    qargs.as_slice(),
                    none.as_slice(),
                );
            },
            BodyOp::Local(local, wires) => {
                proof {
                    lemma_places(frame, wires@);
                }
                let qargs = remap(&inst.qubits, wires);
                let params: Vec<Param> = Vec::new();
                assert(params_model(params@) =~= Seq::<ParamModel>::empty());
                append(
                    &mut body,
                    Operation::Emit(local.clone()),
                    params,
                    qargs.as_slice(),
                    none.as_slice(),
                );
            },
        }
        i += 1;
    }
    assert(content.take(i as int) =~= content);
    Ok(body)
}

/// Where wires come among a frame's.
pub(crate) fn remap(frame: &Vec<usize>, wires: &Vec<usize>) -> (places: Vec<usize>)
    requires
        on_frame(frame@, wires@),
        frame@.no_duplicates(),
    ensures
        places@ == places_in(frame@, wires@),
{
    let mut places: Vec<usize> = Vec::new();
    let mut i: usize = 0;
    while i < wires.len()
        invariant
            i <= wires.len(),
            on_frame(frame@, wires@),
            frame@.no_duplicates(),
            places@ == places_in(frame@, wires@).take(i as int),
        decreases wires.len() - i,
    {
        assert(frame@.contains(wires@[i as int]));
        let place = index_on(frame, wires[i]);
        places.push(place);
        assert(places@ =~= places_in(frame@, wires@).take(i + 1));
        i += 1;
    }
    assert(places_in(frame@, wires@).take(i as int) =~= places_in(frame@, wires@));
    places
}

/// Giving collectors their bodies leaves a circuit well formed and every other site as it was.
proof fn lemma_rewritten(root: CircuitModel, plans: Seq<PlanModel>, other: SiteModel)
    requires
        root.wf(),
        forall|p: int|
            0 <= p < plans.len() ==> plan_proper(root, #[trigger] plans[p], Set::empty())
                && plans[p].content.len() <= usize::MAX,
        forall|p: int, q: int|
            0 <= p < q < plans.len() ==> (#[trigger] plans[p]).site != (#[trigger] plans[q]).site,
        stands_at(root, other.scope, other.node),
        forall|p: int| 0 <= p < plans.len() ==> (#[trigger] plans[p]).site != other,
    ensures
        rewritten(root, plans).wf(),
        stands_at(rewritten(root, plans), other.scope, other.node),
        site_instruction(rewritten(root, plans), other) == site_instruction(root, other),
    decreases plans.len(),
{
    if plans.len() > 0 {
        let front = plans.drop_last();
        let plan = plans.last();
        assert(plans[plans.len() - 1] == plan);
        assert forall|p: int| 0 <= p < front.len() implies plan_proper(
            root,
            #[trigger] front[p],
            Set::empty(),
        ) && front[p].content.len() <= usize::MAX && front[p].site != other && front[p].site
            != plan.site by {
            assert(plans[p] == front[p]);
        }
        assert forall|p: int, q: int| 0 <= p < q < front.len() implies (#[trigger] front[p]).site != (
        #[trigger] front[q]).site by {
            assert(plans[p].site != plans[q].site);
        }
        lemma_rewritten(root, front, other);
        lemma_rewritten(root, front, plan.site);
        let before = rewritten(root, front);
        lemma_one_rewrite(root, before, plan);
        let scope = scope_of(before, plan.site.scope)->Ok_0;
        let inner = with_op(
            scope,
            plan.site.node,
            collect_box(plan.collect),
            plan_body(root, plan),
        );
        lemma_rewrite(before, plan.site.scope, plan.site.node, inner);
        lemma_rewrite_elsewhere(
            before,
            plan.site.scope,
            plan.site.node,
            inner,
            other.scope,
            other.node,
        );
    }
}

/// Giving one collector its body is a rewrite of one instruction.
proof fn lemma_one_rewrite(root: CircuitModel, before: CircuitModel, plan: PlanModel)
    requires
        root.wf(),
        before.wf(),
        plan_proper(root, plan, Set::empty()),
        plan.content.len() <= usize::MAX,
        stands_at(before, plan.site.scope, plan.site.node),
        site_instruction(before, plan.site) == site_instruction(root, plan.site),
    ensures
        scope_of(before, plan.site.scope) is Ok,
        same_but(
            scope_of(before, plan.site.scope)->Ok_0,
            plan.site.node,
            with_op(
                scope_of(before, plan.site.scope)->Ok_0,
                plan.site.node,
                collect_box(plan.collect),
                plan_body(root, plan),
            ),
        ),
{
    lemma_stands_at_exists(before, plan.site.scope, plan.site.node);
    lemma_stands_at_exists(root, plan.site.scope, plan.site.node);
    let scope = scope_of(before, plan.site.scope)->Ok_0;
    let inst = at_site(root, plan.site);
    assert(scope.get(plan.site.node) == inst);
    assert(inst.wf(scope.num_qubits, scope.num_clbits));
    lemma_body_wf(root, inst.qubits, inst.clbits.len(), plan.content);
    lemma_with_op(scope, plan.site.node, collect_box(plan.collect), plan_body(root, plan));
}

proof fn lemma_body_wf(
    root: CircuitModel,
    frame: Seq<usize>,
    num_clbits: nat,
    content: Seq<BodyOpModel>,
)
    requires
        frame.len() <= usize::MAX,
        content.len() <= usize::MAX,
        forall|k: int|
            0 <= k < content.len() ==> placeable_op(root, frame, #[trigger] content[k]),
    ensures
        body_from(root, frame, num_clbits, content).wf(),
        body_from(root, frame, num_clbits, content).num_qubits == frame.len(),
        body_from(root, frame, num_clbits, content).num_clbits == num_clbits,
        body_from(root, frame, num_clbits, content).fresh(),
        body_from(root, frame, num_clbits, content).ops.len() == content.len(),
    decreases content.len(),
{
    if content.len() > 0 {
        let front = content.drop_last();
        assert forall|k: int| 0 <= k < front.len() implies placeable_op(
            root,
            frame,
            #[trigger] front[k],
        ) by {
            assert(content[k] == front[k]);
        }
        lemma_body_wf(root, frame, num_clbits, front);
        let op = content.last();
        assert(content[content.len() - 1] == op);
        assert(placeable_op(root, frame, op));
        match op {
            BodyOpModel::Gate(_, wires) => {
                lemma_places(frame, wires);
            },
            BodyOpModel::Local(_, wires) => {
                lemma_places(frame, wires);
            },
        }
    }
}

/// The body made of what a collector absorbed holds gates and emissions.
proof fn lemma_body_holds_steps(
    root: CircuitModel,
    frame: Seq<usize>,
    num_clbits: nat,
    content: Seq<BodyOpModel>,
)
    requires
        forall|k: int|
            0 <= k < content.len() ==> placeable_op(root, frame, #[trigger] content[k]),
    ensures
        holds_steps(body_from(root, frame, num_clbits, content).ops),
    decreases content.len(),
{
    if content.len() > 0 {
        let front = content.drop_last();
        assert forall|k: int| 0 <= k < front.len() implies placeable_op(
            root,
            frame,
            #[trigger] front[k],
        ) by {
            assert(content[k] == front[k]);
        }
        lemma_body_holds_steps(root, frame, num_clbits, front);
        assert(placeable_op(root, frame, content[content.len() - 1]));
        let out = body_from(root, frame, num_clbits, front);
        match content.last() {
            BodyOpModel::Gate(site, wires) => {
                lemma_steps_with(
                    out,
                    next_instruction(
                        out,
                        at_site(root, site).op,
                        at_site(root, site).params,
                        Seq::empty(),
                        places_in(frame, wires),
                        Seq::empty(),
                    ),
                );
            },
            BodyOpModel::Local(emit, wires) => {
                lemma_steps_with(
                    out,
                    next_instruction(
                        out,
                        OperationModel::Emit(emit),
                        Seq::empty(),
                        Seq::empty(),
                        places_in(frame, wires),
                        Seq::empty(),
                    ),
                );
            },
        }
    }
}

/// Giving one collector its body keeps a circuit valid.
proof fn lemma_plan_keeps_valid(root: CircuitModel, before: CircuitModel, plan: PlanModel)
    requires
        root.wf(),
        before.wf(),
        valid(before),
        plan_proper(root, plan, Set::empty()),
        stands_at(before, plan.site.scope, plan.site.node),
        site_instruction(before, plan.site) == site_instruction(root, plan.site),
    ensures
        valid(
            with_scope(
                before,
                plan.site.scope,
                with_op(
                    scope_of(before, plan.site.scope)->Ok_0,
                    plan.site.node,
                    collect_box(plan.collect),
                    plan_body(root, plan),
                ),
            ),
        ),
{
    lemma_stands_at_exists(before, plan.site.scope, plan.site.node);
    lemma_valid_at(before, plan.site.scope, plan.site.node);
    lemma_scope_wf(before, plan.site.scope);
    let scope = scope_of(before, plan.site.scope)->Ok_0;
    let inst = at_site(root, plan.site);
    assert(scope.get(plan.site.node) == inst);
    lemma_body_holds_steps(root, inst.qubits, inst.clbits.len(), plan.content);
    lemma_valid_refilled(scope, plan.site.node, plan.collect, plan_body(root, plan));
    lemma_valid_rewrite(
        before,
        plan.site.scope,
        plan.site.node,
        with_op(scope, plan.site.node, collect_box(plan.collect), plan_body(root, plan)),
    );
}

/// Taking instructions out leaves a circuit well formed and every other site as it was.
proof fn lemma_cleared(root: CircuitModel, sites: Seq<SiteModel>, other: SiteModel)
    requires
        root.wf(),
        sites.no_duplicates(),
        forall|k: int|
            0 <= k < sites.len() ==> stands_at(root, (#[trigger] sites[k]).scope, sites[k].node),
        stands_at(root, other.scope, other.node),
        !sites.contains(other),
    ensures
        cleared(root, sites).wf(),
        stands_at(cleared(root, sites), other.scope, other.node),
        site_instruction(cleared(root, sites), other) == site_instruction(root, other),
    decreases sites.len(),
{
    if sites.len() > 0 {
        let front = sites.drop_last();
        let site = sites.last();
        assert(sites[sites.len() - 1] == site);
        assert forall|k: int| 0 <= k < front.len() implies stands_at(
            root,
            (#[trigger] front[k]).scope,
            front[k].node,
        ) by {
            assert(sites[k] == front[k]);
        }
        assert(!front.contains(other)) by {
            if front.contains(other) {
                assert(sites[front.index_of(other)] == other);
            }
        }
        assert(!front.contains(site)) by {
            if front.contains(site) {
                assert(sites[front.index_of(site)] == sites[sites.len() - 1]);
            }
        }
        assert(sites.contains(site));
        lemma_cleared(root, front, other);
        lemma_cleared(root, front, site);
        let before = cleared(root, front);
        lemma_stands_at_exists(before, site.scope, site.node);
        let scope = scope_of(before, site.scope)->Ok_0;
        lemma_without(scope, site.node);
        lemma_rewrite(before, site.scope, site.node, without(scope, site.node));
        lemma_rewrite_elsewhere(
            before,
            site.scope,
            site.node,
            without(scope, site.node),
            other.scope,
            other.node,
        );
    }
}

/// The collectors a sweep reports are reached through content boxes.
pub(crate) proof fn lemma_swept(root: CircuitModel, order: ScopeOrder)
    requires
        root.wf(),
        swept(root, Seq::empty(), order) is Ok,
    ensures
        swept(root, Seq::empty(), order)->Ok_0.no_duplicates(),
        forall|k: int|
            0 <= k < swept(root, Seq::empty(), order)->Ok_0.len() ==> stands_at(
                root,
                (#[trigger] swept(root, Seq::empty(), order)->Ok_0[k]).scope,
                swept(root, Seq::empty(), order)->Ok_0[k].node,
            ) && at_site(root, swept(root, Seq::empty(), order)->Ok_0[k]).op.is_collector(),
{
    lemma_sweep_reports_each_once(root, Seq::empty(), order);
    let sites = swept(root, Seq::empty(), order)->Ok_0;
    assert forall|k: int| 0 <= k < sites.len() implies stands_at(
        root,
        (#[trigger] sites[k]).scope,
        sites[k].node,
    ) && at_site(root, sites[k]).op.is_collector() by {
        assert(collects_at(root, Seq::empty(), sites[k]));
        assert(sites[k].scope.skip(0) =~= sites[k].scope);
        lemma_stands_at_exists(root, sites[k].scope, sites[k].node);
    }
}

/// Absorb dressing into every collector, in place.
///
/// Planning reads the whole circuit and rewriting changes it, so the two are separate sweeps: every plan is
/// made against the circuit as it came, and a node number stays with its instruction, so the sites carried
/// between them stay valid.
pub fn absorb_dressing(dag: &mut Circuit) -> (result: Result<(), SamplexError>)
    requires
        old(dag)@.wf(),
    ensures
        match absorption(old(dag)@) {
            Ok(after) => result is Ok && final(dag)@ == after && final(dag)@.wf(),
            Err(error) => result == Err::<(), SamplexError>(error) && final(dag)@ == old(dag)@,
        },
        valid(old(dag)@) ==> valid(final(dag)@),
{
    let ghost root = dag@;
    let sites = match collectors(dag, ScopeOrder::Innermost) {
        Ok(sites) => sites,
        Err(error) => {
            return Err(error);
        },
    };
    let ghost model = sites_model(sites@);
    proof {
        lemma_swept(root, ScopeOrder::Innermost);
    }
    let plans = match plan_absorptions(dag, &sites) {
        Ok(plans) => plans,
        Err(error) => {
            return Err(error);
        },
    };
    let ghost said = plans_model(plans@);
    proof {
        lemma_plans_take_each_once(root, model);
        assert forall|p: int, q: int| 0 <= p < q < said.len() implies (#[trigger] said[p]).site != (
        #[trigger] said[q]).site by {
            assert(model[p] != model[q]);
        }
    }
    let mut bodies: Vec<Circuit> = Vec::new();
    let mut i: usize = 0;
    while i < plans.len()
        invariant
            i <= plans.len(),
            dag@ == root,
            root == old(dag)@,
            root.wf(),
            said == plans_model(plans@),
            forall|p: int|
                0 <= p < said.len() ==> plan_proper(root, #[trigger] said[p], Set::empty())
                    && said[p].content.len() <= usize::MAX,
            bodies@.len() == i,
            forall|p: int|
                0 <= p < i ==> (#[trigger] bodies@[p])@ == plan_body(root, said[p]),
        decreases plans.len() - i,
    {
        assert(said[i as int] == plans@[i as int]@);
        assert(plan_proper(root, said[i as int], Set::empty()));
        match build_body(dag, &plans[i]) {
            Ok(body) => {
                bodies.push(body);
            },
            Err(error) => {
                return Err(error);
            },
        }
        i += 1;
    }
    // Taken from the front, so that the bodies go to their collectors in order.
    let mut waiting = turned_around(bodies);
    let mut consumed: Vec<Site> = Vec::new();
    assert(sites_model(consumed@) =~= Seq::<SiteModel>::empty());
    let count: usize = plans.len();
    let mut i: usize = 0;
    assert(said.take(0) =~= Seq::<PlanModel>::empty());
    while i < count
        invariant
            i <= count,
            count == plans@.len(),
            root == old(dag)@,
            root.wf(),
            said == plans_model(plans@),
            forall|p: int|
                0 <= p < said.len() ==> plan_proper(root, #[trigger] said[p], Set::empty())
                    && said[p].content.len() <= usize::MAX,
            forall|p: int, q: int|
                0 <= p < q < said.len() ==> (#[trigger] said[p]).site != (#[trigger] said[q]).site,
            waiting@.len() == count - i,
            forall|k: int|
                0 <= k < waiting@.len() ==> (#[trigger] waiting@[k])@ == plan_body(
                    root,
                    said[count - 1 - k],
                ),
            dag@ == rewritten(root, said.take(i as int)),
            dag@.wf(),
            valid(root) ==> valid(dag@),
            sites_model(consumed@) == all_consumed(said.take(i as int)),
        decreases count - i,
    {
        let ghost done = said.take(i as int);
        let ghost more = said.take(i + 1);
        let ghost plan = said[i as int];
        proof {
            assert(plan == plans@[i as int]@);
            assert(more.drop_last() =~= done);
            assert(more.last() == plan);
            assert(plan_proper(root, plan, Set::empty()));
            assert forall|p: int| 0 <= p < done.len() implies plan_proper(
                root,
                #[trigger] done[p],
                Set::empty(),
            ) && done[p].content.len() <= usize::MAX && done[p].site != plan.site by {
                assert(said[p] == done[p]);
            }
            assert forall|p: int, q: int| 0 <= p < q < done.len() implies (
            #[trigger] done[p]).site != (#[trigger] done[q]).site by {
                assert(said[p].site != said[q].site);
            }
            lemma_rewritten(root, done, plan.site);
            lemma_one_rewrite(root, dag@, plan);
            lemma_stands_at_exists(dag@, plan.site.scope, plan.site.node);
            let scope = scope_of(dag@, plan.site.scope)->Ok_0;
            lemma_rewrite(
                dag@,
                plan.site.scope,
                plan.site.node,
                with_op(
                    scope,
                    plan.site.node,
                    collect_box(plan.collect),
                    plan_body(root, plan),
                ),
            );
            if valid(root) {
                lemma_plan_keeps_valid(root, dag@, plan);
            }
        }
        let ghost left = waiting@;
        if let Some(body) = waiting.pop() {
            assert(body@ == left[left.len() - 1]@);
            assert(body@ == plan_body(root, plan));
            let op = collect_op(plans[i].spec.clone());
            match plans[i].collector.substitute(dag, op, body) {
                Ok(_) => {},
                Err(error) => {
                    assert(false);
                    return Err(error);
                },
            }
        }
        extend_sites(&mut consumed, &plans[i].consumed);
        i += 1;
    }
    assert(said.take(i as int) =~= said);
    let ghost base = dag@;
    let ghost gone = sites_model(consumed@);
    proof {
        assert(gone == all_consumed(said));
        assert(gone.take(0) =~= Seq::<SiteModel>::empty());
        assert forall|c: int| 0 <= c < gone.len() implies stands_at(
            base,
            (#[trigger] gone[c]).scope,
            gone[c].node,
        ) by {
            assert(all_consumed(said)[c] == gone[c]);
            assert forall|p: int| 0 <= p < said.len() implies (#[trigger] said[p]).site != gone[c] by {
                assert(at_site(root, said[p].site).op.is_collector());
            }
            lemma_rewritten(root, said, gone[c]);
        }
    }
    let mut c: usize = 0;
    while c < consumed.len()
        invariant
            c <= consumed.len(),
            base.wf(),
            gone == sites_model(consumed@),
            gone.no_duplicates(),
            forall|k: int|
                0 <= k < gone.len() ==> stands_at(base, (#[trigger] gone[k]).scope, gone[k].node),
            dag@ == cleared(base, gone.take(c as int)),
            dag@.wf(),
            valid(old(dag)@) ==> valid(dag@),
            base == rewritten(old(dag)@, said),
            absorption(old(dag)@) == Ok::<CircuitModel, SamplexError>(cleared(base, gone)),
        decreases consumed.len() - c,
    {
        let ghost done = gone.take(c as int);
        let ghost more = gone.take(c + 1);
        let ghost site = gone[c as int];
        proof {
            assert(site == consumed@[c as int]@);
            assert(more.drop_last() =~= done);
            assert(more.last() == site);
            assert(!done.contains(site)) by {
                if done.contains(site) {
                    let k = done.index_of(site);
                    assert(gone[k] == gone[c as int]);
                }
            }
            assert forall|k: int| 0 <= k < done.len() implies stands_at(
                base,
                (#[trigger] done[k]).scope,
                done[k].node,
            ) by {
                assert(gone[k] == done[k]);
            }
            lemma_cleared(base, done, site);
            lemma_stands_at_exists(dag@, site.scope, site.node);
            let scope = scope_of(dag@, site.scope)->Ok_0;
            lemma_without(scope, site.node);
            lemma_rewrite(dag@, site.scope, site.node, without(scope, site.node));
            if valid(old(dag)@) {
                lemma_valid_at(dag@, site.scope, site.node);
                lemma_scope_wf(dag@, site.scope);
                lemma_valid_without(scope, site.node);
                lemma_valid_rewrite(dag@, site.scope, site.node, without(scope, site.node));
            }
        }
        match consumed[c].remove(dag) {
            Ok(_) => {},
            Err(error) => {
                assert(false);
                return Err(error);
            },
        }
        c += 1;
    }
    assert(gone.take(c as int) =~= gone);
    Ok(())
}

/// A list of circuits, last first.
fn turned_around(list: Vec<Circuit>) -> (turned: Vec<Circuit>)
    ensures
        turned@.len() == list@.len(),
        forall|k: int|
            0 <= k < turned@.len() ==> (#[trigger] turned@[k])@ == list@[list@.len() - 1 - k]@,
{
    let ghost given = list@;
    let mut list = list;
    let mut turned: Vec<Circuit> = Vec::new();
    while list.len() > 0
        invariant
            list@.len() + turned@.len() == given.len(),
            list@ == given.take(list@.len() as int),
            forall|k: int|
                0 <= k < turned@.len() ==> (#[trigger] turned@[k])@ == given[given.len() - 1 - k]@,
        decreases list.len(),
    {
        let ghost left = list@;
        if let Some(circuit) = list.pop() {
            assert(circuit == given[left.len() - 1]);
            turned.push(circuit);
            assert(list@ =~= given.take(list@.len() as int));
        }
    }
    turned
}

// --- What absorbing keeps ---------------------------------------------------------------------------

/// Those of some steps that are gates, in the order they come in.
pub open spec fn gates(steps: Seq<Step>) -> Seq<Step>
    decreases steps.len(),
{
    if steps.len() == 0 {
        Seq::empty()
    } else if steps.last().op is Gate {
        gates(steps.drop_last()).push(steps.last())
    } else {
        gates(steps.drop_last())
    }
}

/// The gates among some steps, each as often as it occurs.
pub open spec fn gate_tally(steps: Seq<Step>) -> Multiset<Step> {
    gates(steps).to_multiset()
}

/// Whether no collector of a run holds anything yet.
pub open spec fn collectors_empty(ops: Seq<InstructionModel>) -> bool
    decreases ops,
{
    forall|i: int| 0 <= i < ops.len() ==> collector_empty(#[trigger] ops[i])
}

/// Whether an instruction is no collector that holds anything, nor a content box with one.
pub open spec fn collector_empty(inst: InstructionModel) -> bool
    decreases inst,
{
    if inst.op.is_collector() {
        inst.blocks.len() == 1 ==> inst.blocks[0].ops.len() == 0
    } else {
        inst.op.is_box() && inst.blocks.len() == 1 ==> collectors_empty(inst.blocks[0].ops)
    }
}

proof fn lemma_tally_add(left: Seq<Step>, right: Seq<Step>)
    ensures
        gates(left + right) == gates(left) + gates(right),
        gate_tally(left + right) == gate_tally(left).add(gate_tally(right)),
    decreases right.len(),
{
    if right.len() == 0 {
        assert(left + right =~= left);
        assert(gates(left) + Seq::<Step>::empty() =~= gates(left));
    } else {
        lemma_tally_add(left, right.drop_last());
        assert((left + right).drop_last() =~= left + right.drop_last());
        assert(gates(left + right) =~= gates(left) + gates(right));
    }
    vstd::seq_lib::lemma_multiset_commutative(gates(left), gates(right));
}

proof fn lemma_tally_none()
    ensures
        gate_tally(Seq::empty()) == Multiset::<Step>::empty(),
{
    broadcast use vstd::seq_lib::group_to_multiset_ensures;

    assert(gates(Seq::<Step>::empty()) =~= Seq::<Step>::empty());
    assert(gate_tally(Seq::empty()).len() == 0);
    assert(gate_tally(Seq::empty()) =~= Multiset::<Step>::empty());
}

/// Changing one bead changes the gates there are by what it took and takes.
proof fn lemma_patched_tally(beads: Seq<Bead>, site: SiteModel, put: Seq<Bead>, steps: Seq<Step>)
    requires
        single(beads),
        beads.contains(Bead { stop: Ahead::At(site), steps }),
    ensures
        gate_tally(joined(patched(beads, site, put))).add(gate_tally(steps)) == gate_tally(
            joined(beads),
        ).add(gate_tally(joined(put))),
{
    let bead = Bead { stop: Ahead::At(site), steps };
    let a = beads.index_of(bead);
    assert(beads[a] == bead);
    lemma_patched_at(beads, site, put, a);
    let before = beads.take(a);
    let after = beads.skip(a + 1);
    let one = seq![bead];
    assert(beads =~= before + one + after);
    lemma_joined_add(before + one, after);
    lemma_joined_add(before, one);
    lemma_joined_one(bead);
    lemma_joined_add(before + put, after);
    lemma_joined_add(before, put);
    lemma_tally_add(joined(before) + steps, joined(after));
    lemma_tally_add(joined(before), steps);
    lemma_tally_add(joined(before) + joined(put), joined(after));
    lemma_tally_add(joined(before), joined(put));
    assert(gate_tally(joined(patched(beads, site, put))).add(gate_tally(steps)) =~= gate_tally(
        joined(beads),
    ).add(gate_tally(joined(put))));
}

/// The gates at some sites of a circuit.
spec fn gates_at(root: CircuitModel, sites: Seq<SiteModel>, frame: Seq<usize>) -> Multiset<Step>
    decreases sites.len(),
{
    if sites.len() == 0 {
        Multiset::empty()
    } else {
        let site = sites.last();
        gates_at(root, sites.drop_last(), frame).add(
            gate_tally(flat_of(at_site(root, site), frame_at(root, site.scope, frame))),
        )
    }
}

proof fn lemma_gates_at_add(
    root: CircuitModel,
    left: Seq<SiteModel>,
    right: Seq<SiteModel>,
    frame: Seq<usize>,
)
    ensures
        gates_at(root, left + right, frame) == gates_at(root, left, frame).add(
            gates_at(root, right, frame),
        ),
    decreases right.len(),
{
    if right.len() == 0 {
        assert(left + right =~= left);
        assert(gates_at(root, left, frame).add(Multiset::empty()) =~= gates_at(root, left, frame));
    } else {
        lemma_gates_at_add(root, left, right.drop_last(), frame);
        assert((left + right).drop_last() =~= left + right.drop_last());
        assert((left + right).last() == right.last());
        assert(gates_at(root, left + right, frame) =~= gates_at(root, left, frame).add(
            gates_at(root, right, frame),
        ));
    }
}

/// The step a thing absorbed takes, read through a frame.
spec fn absorbed_step(root: CircuitModel, op: BodyOpModel, frame: Seq<usize>) -> Step {
    match op {
        BodyOpModel::Gate(site, wires) => Step {
            op: at_site(root, site).op,
            params: at_site(root, site).params,
            qubits: through(frame, wires),
        },
        BodyOpModel::Local(emit, wires) => Step {
            op: OperationModel::Emit(emit),
            params: Seq::empty(),
            qubits: through(frame, wires),
        },
    }
}

/// The steps some things absorbed take, one after another.
spec fn absorbed_steps(root: CircuitModel, content: Seq<BodyOpModel>, frame: Seq<usize>) -> Seq<Step> {
    Seq::new(content.len(), |k: int| absorbed_step(root, content[k], frame))
}

/// A collector's body does what it was made of.
proof fn lemma_body_steps(
    root: CircuitModel,
    wires: Seq<usize>,
    num_clbits: nat,
    content: Seq<BodyOpModel>,
    frame: Seq<usize>,
)
    requires
        wires.len() <= usize::MAX,
        forall|k: int|
            0 <= k < content.len() ==> placeable_op(root, wires, #[trigger] content[k]),
    ensures
        flat(body_from(root, wires, num_clbits, content).ops, through(frame, wires))
            == absorbed_steps(root, content, frame),
    decreases content.len(),
{
    if content.len() == 0 {
        assert(absorbed_steps(root, content, frame) =~= Seq::<Step>::empty());
    } else {
        let front = content.drop_last();
        assert forall|k: int| 0 <= k < front.len() implies placeable_op(
            root,
            wires,
            #[trigger] front[k],
        ) by {
            assert(content[k] == front[k]);
        }
        lemma_body_steps(root, wires, num_clbits, front, frame);
        let op = content.last();
        assert(content[content.len() - 1] == op);
        let before = body_from(root, wires, num_clbits, front);
        let placed = body_from(root, wires, num_clbits, content).ops.last();
        let read = through(frame, wires);
        lemma_flat_push(before.ops, placed, read);
        let on = match op {
            BodyOpModel::Gate(_, on) => on,
            BodyOpModel::Local(_, on) => on,
        };
        let places = places_in(wires, on);
        assert(through(read, places) =~= through(frame, on)) by {
            assert forall|k: int| 0 <= k < places.len() implies (#[trigger] places[k]) < wires.len()
                && read[places[k] as int] == frame[on[k] as int] by {
                assert(wires.contains(on[k]));
            }
        }
        assert(flat_of(placed, read) =~= seq![absorbed_step(root, op, frame)]);
        assert(flat(before.ops, read) + seq![absorbed_step(root, op, frame)] =~= absorbed_steps(
            root,
            content,
            frame,
        ));
    }
}

/// What stands at a site below a scope stands below it as seen from there.
proof fn lemma_stands_from(root: CircuitModel, base: Seq<usize>, anchor: usize, below: Seq<usize>, node: usize)
    requires
        root.wf(),
        stands_at(root, base, anchor),
        stands_at(root, base + below, node),
    ensures
        stands_at(scope_of(root, base)->Ok_0, below, node),
    decreases base.len(),
{
    if base.len() == 0 {
        assert(base + below =~= below);
    } else {
        let inst = root.get(base[0]);
        assert(inst.wf(root.num_qubits, root.num_clbits));
        assert((base + below)[0] == base[0]);
        assert((base + below).drop_first() =~= base.drop_first() + below);
        lemma_stands_from(inst.blocks[0], base.drop_first(), anchor, below, node);
    }
}

/// Wires of a scope that is there can be lifted out of it.
proof fn lemma_lifts(circuit: CircuitModel, below: Seq<usize>, node: usize, wires: Seq<usize>)
    requires
        circuit.wf(),
        stands_at(circuit, below, node),
        forall|k: int|
            0 <= k < wires.len() ==> (#[trigger] wires[k]) < scope_of(circuit, below)->Ok_0.num_qubits,
    ensures
        lifted(circuit, below, wires) is Ok,
        forall|k: int|
            0 <= k < lifted(circuit, below, wires)->Ok_0.len() ==> (#[trigger] lifted(
                circuit,
                below,
                wires,
            )->Ok_0[k]) < circuit.num_qubits,
    decreases below.len(),
{
    if below.len() > 0 {
        let inst = circuit.get(below[0]);
        assert(inst.wf(circuit.num_qubits, circuit.num_clbits));
        lemma_lifts(inst.blocks[0], below.drop_first(), node, wires);
        let inner = lifted(inst.blocks[0], below.drop_first(), wires)->Ok_0;
        assert(inst.blocks[0].num_qubits == inst.qubits.len());
    }
}

/// What a walk took is a step of the circuit: on the circuit qubits the site is on, with the parameters it has there.
proof fn lemma_absorbed_is_there(look: Outlook, site: SiteModel, op: BodyOpModel, frame: Seq<usize>)
    requires
        look.wf(),
        rightly_taken(look, site, op),
    ensures
        ({
            let step = absorbed_step(look.root, op, frame_at(look.root, look.site.scope, frame));
            let inst = at_site(look.root, site);
            let there = Step {
                op: inst.op,
                params: inst.params,
                qubits: through(frame_at(look.root, site.scope, frame), inst.qubits),
            };
            &&& flat_of(inst, frame_at(look.root, site.scope, frame)) == seq![there]
            &&& step.qubits == there.qubits
            &&& op is Gate ==> step == there && inst.op is Gate
            &&& op is Local ==> inst.op is Emit && step.op == OperationModel::Emit(
                (inst.op->Emit_0).localized(),
            ) && step.params.len() == 0
        }),
{
    let root = look.root;
    let inst = at_site(root, site);
    lemma_outlook(look);
    let scope = look.scope();
    let below = site.scope.skip(look.site.scope.len() as int);
    assert(site.scope =~= look.site.scope + below);
    lemma_stands_at_exists(root, site.scope, site.node);
    lemma_stands_from(root, look.site.scope, look.site.node, below, site.node);
    lemma_stands_at_exists(scope, below, site.node);
    lemma_stands_at_below(root, look.site.scope, look.site.node, below, site.node);
    let there = scope_of(root, site.scope)->Ok_0;
    assert(there.ops[there.at(site.node)].node == site.node);
    assert(inst.wf(there.num_qubits, there.num_clbits));
    lemma_lifts(scope, below, site.node, inst.qubits);
    lemma_lifted_frame(scope, below, inst.qubits, frame_at(root, look.site.scope, frame));
    lemma_frame_at_below(root, look.site.scope, look.site.node, below, frame);
    let down = frame_at(root, site.scope, frame);
    assert(flat_of(inst, down) =~= seq![
        Step { op: inst.op, params: inst.params, qubits: through(down, inst.qubits) },
    ]);
}

/// Of what a walk took, the gates are the gates that stood there.
proof fn lemma_walk_tally(look: Outlook, content: Seq<BodyOpModel>, consumed: Seq<SiteModel>, frame: Seq<usize>)
    requires
        look.wf(),
        content.len() == consumed.len(),
        forall|c: int|
            0 <= c < consumed.len() ==> rightly_taken(look, #[trigger] consumed[c], content[c]),
    ensures
        gate_tally(
            absorbed_steps(look.root, content, frame_at(look.root, look.site.scope, frame)),
        ) == gates_at(look.root, consumed, frame),
    decreases content.len(),
{
    let down = frame_at(look.root, look.site.scope, frame);
    let steps = absorbed_steps(look.root, content, down);
    if content.len() == 0 {
        assert(steps =~= Seq::<Step>::empty());
        lemma_tally_none();
    } else {
        let last = content.len() - 1;
        let few = content.drop_last();
        let fewer = consumed.drop_last();
        assert forall|c: int| 0 <= c < fewer.len() implies rightly_taken(
            look,
            #[trigger] fewer[c],
            few[c],
        ) by {
            assert(consumed[c] == fewer[c]);
            assert(content[c] == few[c]);
        }
        lemma_walk_tally(look, few, fewer, frame);
        assert(rightly_taken(look, consumed[last], content[last]));
        lemma_absorbed_is_there(look, consumed[last], content[last], frame);
        let one = seq![steps[last]];
        assert(steps =~= absorbed_steps(look.root, few, down) + one);
        lemma_tally_add(absorbed_steps(look.root, few, down), one);
        let there = flat_of(
            at_site(look.root, consumed[last]),
            frame_at(look.root, consumed[last].scope, frame),
        );
        assert(gate_tally(one) == gate_tally(there)) by {
            lemma_gates_one(steps[last]);
            lemma_gates_one(there[0]);
            assert(there =~= seq![there[0]]);
        }
    }
}

proof fn lemma_gates_one(step: Step)
    ensures
        gates(seq![step]) == if step.op is Gate {
            seq![step]
        } else {
            Seq::empty()
        },
{
    let one = seq![step];
    assert(one.drop_last() =~= Seq::<Step>::empty());
    assert(gates(one.drop_last()) =~= Seq::<Step>::empty());
    assert(one.last() == step);
    assert(Seq::<Step>::empty().push(step) =~= one);
}

/// Turning steps around loses no gate.
proof fn lemma_tally_turned(steps: Seq<Step>)
    ensures
        gate_tally(steps.reverse()) == gate_tally(steps),
    decreases steps.len(),
{
    if steps.len() == 0 {
        assert(steps.reverse() =~= steps);
    } else {
        let front = steps.drop_last();
        let one = seq![steps.last()];
        lemma_tally_turned(front);
        assert(steps.reverse() =~= one + front.reverse());
        assert(steps =~= front + one);
        lemma_tally_add(one, front.reverse());
        lemma_tally_add(front, one);
        assert(gate_tally(one).add(gate_tally(front)) =~= gate_tally(front).add(gate_tally(one)));
    }
}

/// The gates of the body a plan makes are those it takes over.
proof fn lemma_plan_tally(root: CircuitModel, site: SiteModel, claimed: Set<SiteModel>, frame: Seq<usize>)
    requires
        root.wf(),
        stands_at(root, site.scope, site.node),
        at_site(root, site).op.is_collector(),
        planned(root, site, claimed) is Ok,
    ensures
        ({
            let plan = planned(root, site, claimed)->Ok_0;
            gate_tally(
                flat(
                    plan_body(root, plan).ops,
                    through(frame_at(root, site.scope, frame), at_site(root, site).qubits),
                ),
            ) == gates_at(root, plan.consumed, frame)
        }),
{
    let plan = planned(root, site, claimed)->Ok_0;
    let left = outlook(root, site, Direction::Left, claimed);
    let right = outlook(root, site, Direction::Right, claimed);
    let before = rounds(left, left.start())->Ok_0;
    let after = rounds(right, right.start())->Ok_0;
    let down = frame_at(root, site.scope, frame);
    lemma_walk_takes_each_once(left);
    lemma_walk_takes_each_once(right);
    lemma_walk_tally(left, before.content, before.consumed, frame);
    lemma_walk_tally(right, after.content, after.consumed, frame);
    lemma_planned(root, site, claimed);
    let inst = at_site(root, site);
    lemma_outlook(left);
    lemma_body_steps(root, inst.qubits, inst.clbits.len(), plan.content, down);
    let nearer = absorbed_steps(root, before.content, down);
    let farther = absorbed_steps(root, after.content, down);
    assert(absorbed_steps(root, plan.content, down) =~= nearer.reverse() + farther);
    lemma_tally_add(nearer.reverse(), farther);
    lemma_tally_turned(nearer);
    lemma_gates_at_add(root, before.consumed, after.consumed, frame);
}

/// A run has no more beads than instructions.
proof fn lemma_beads_count(ops: Seq<InstructionModel>, path: Seq<usize>, frame: Seq<usize>)
    ensures
        strung(ops, path, frame, None).len() <= run_size(ops),
    decreases ops,
{
    if ops.len() > 0 {
        let last = ops.len() - 1;
        let inst = ops[last];
        lemma_beads_count(ops.drop_last(), path, frame);
        if inst.op.is_content_box() && inst.blocks.len() == 1 {
            assert(decreases_to!(ops => ops[last]));
            assert(decreases_to!(ops[last] => ops[last].blocks));
            assert(decreases_to!(ops[last].blocks => ops[last].blocks[0]));
            assert(decreases_to!(ops[last].blocks[0] => ops[last].blocks[0].ops));
            lemma_beads_count(
                inst.blocks[0].ops,
                path.push(inst.node),
                through(frame, inst.qubits),
            );
            lemma_blocks_size_one(inst.blocks);
        }
        assert(strung_of(inst, path, frame, None).len() <= 1 + blocks_size(inst.blocks));
    }
}

/// A circuit has no more sites than instructions.
proof fn lemma_sites_fit(root: CircuitModel, sites: Seq<SiteModel>)
    requires
        root.wf(),
        root.num_qubits <= usize::MAX,
        sites.no_duplicates(),
        forall|c: int|
            0 <= c < sites.len() ==> stands_at(root, (#[trigger] sites[c]).scope, sites[c].node),
    ensures
        sites.len() <= run_size(root.ops),
{
    let none = Seq::<usize>::empty();
    let frame = own_qubits(root.num_qubits);
    lemma_own_apart(root.num_qubits);
    let beads = strung(root.ops, none, frame, None);
    lemma_beads_count(root.ops, none, frame);
    let stops = beads.map_values(|bead: Bead| bead.stop->At_0);
    assert(sites.to_set().subset_of(stops.to_set())) by {
        assert forall|site: SiteModel| #[trigger] sites.to_set().contains(site) implies stops.to_set().contains(
            site,
        ) by {
            assert(sites.contains(site));
            let c = sites.index_of(site);
            assert(sites[c] == site);
            assert(none + site.scope =~= site.scope);
            lemma_bead_of_site(root, none, site.scope, site.node, frame, None);
            let k = choose|k: int| 0 <= k < beads.len() && (#[trigger] beads[k]).stop == Ahead::At(site);
            assert(beads[k].stop == Ahead::At(site));
            assert(stops[k] == site);
            assert(stops.contains(site));
        }
    }
    sites.unique_seq_to_set();
    stops.lemma_cardinality_of_set();
    vstd::set_lib::lemma_len_subset(sites.to_set(), stops.to_set());
}

/// A collector of a run whose collectors are empty holds nothing.
proof fn lemma_empty_at(root: CircuitModel, scope: Seq<usize>, node: usize, frame: Seq<usize>)
    requires
        root.wf(),
        collectors_empty(root.ops),
        stands_at(root, scope, node),
        scope_of(root, scope)->Ok_0.get(node).op.is_collector(),
    ensures
        flat_of(scope_of(root, scope)->Ok_0.get(node), frame) == Seq::<Step>::empty(),
    decreases scope.len(),
{
    let first = if scope.len() == 0 {
        node
    } else {
        scope[0]
    };
    let at = root.at(first);
    let inst = root.ops[at];
    assert(root.get(first) == inst);
    assert(inst.node == first);
    assert(inst.wf(root.num_qubits, root.num_clbits));
    assert(collector_empty(root.ops[at]));
    if scope.len() > 0 {
        lemma_empty_at(inst.blocks[0], scope.drop_first(), node, frame);
    } else if inst.blocks.len() == 1 {
        assert(flat(inst.blocks[0].ops, through(frame, inst.qubits)) =~= Seq::<Step>::empty());
    }
}

/// Whether some plans can be carried out on a circuit one after another: each is proper, is of a size a machine can
/// hold, and takes the gates it says, and no two are of one collector.
spec fn plans_fit(root: CircuitModel, plans: Seq<PlanModel>, frame: Seq<usize>) -> bool {
    &&& forall|p: int|
        0 <= p < plans.len() ==> plan_proper(root, #[trigger] plans[p], Set::empty())
            && plans[p].content.len() <= usize::MAX && gate_tally(
            flat(
                plan_body(root, plans[p]).ops,
                through(
                    frame_at(root, plans[p].site.scope, frame),
                    at_site(root, plans[p].site).qubits,
                ),
            ),
        ) == gates_at(root, plans[p].consumed, frame)
    &&& forall|p: int, q: int|
        0 <= p < q < plans.len() ==> (#[trigger] plans[p]).site != (#[trigger] plans[q]).site
}

proof fn lemma_plans_fit_front(root: CircuitModel, plans: Seq<PlanModel>, frame: Seq<usize>)
    requires
        plans_fit(root, plans, frame),
        plans.len() > 0,
    ensures
        plans_fit(root, plans.drop_last(), frame),
        forall|p: int|
            0 <= p < plans.len() - 1 ==> (#[trigger] plans.drop_last()[p]).site
                != plans.last().site,
{
    let front = plans.drop_last();
    assert forall|p: int, q: int| 0 <= p < q < front.len() implies (#[trigger] front[p]).site != (
    #[trigger] front[q]).site by {
        assert(plans[p].site != plans[q].site);
    }
    assert forall|p: int| 0 <= p < front.len() implies (#[trigger] front[p]).site
        != plans.last().site by {
        assert(plans[p].site != plans[plans.len() - 1].site);
    }
    assert forall|p: int| 0 <= p < front.len() implies plan_proper(
        root,
        #[trigger] front[p],
        Set::empty(),
    ) && front[p].content.len() <= usize::MAX && gate_tally(
        flat(
            plan_body(root, front[p]).ops,
            through(
                frame_at(root, front[p].site.scope, frame),
                at_site(root, front[p].site).qubits,
            ),
        ),
    ) == gates_at(root, front[p].consumed, frame) by {
        assert(plans[p] == front[p]);
    }
}

/// Giving collectors their bodies leaves every other site's frame as it was.
proof fn lemma_rewritten_frame(root: CircuitModel, plans: Seq<PlanModel>, other: SiteModel, frame: Seq<usize>)
    requires
        root.wf(),
        plans_fit(root, plans, frame),
        stands_at(root, other.scope, other.node),
        forall|p: int| 0 <= p < plans.len() ==> (#[trigger] plans[p]).site != other,
    ensures
        rewritten(root, plans).wf(),
        rewritten(root, plans).num_qubits == root.num_qubits,
        stands_at(rewritten(root, plans), other.scope, other.node),
        site_instruction(rewritten(root, plans), other) == site_instruction(root, other),
        frame_at(rewritten(root, plans), other.scope, frame) == frame_at(root, other.scope, frame),
    decreases plans.len(),
{
    lemma_rewritten(root, plans, other);
    if plans.len() > 0 {
        let front = plans.drop_last();
        let plan = plans.last();
        assert(plans[plans.len() - 1] == plan);
        lemma_plans_fit_front(root, plans, frame);
        assert forall|p: int| 0 <= p < front.len() implies (#[trigger] front[p]).site != other by {
            assert(plans[p] == front[p]);
        }
        lemma_rewritten_frame(root, front, other, frame);
        lemma_rewritten(root, front, plan.site);
        let before = rewritten(root, front);
        lemma_one_rewrite(root, before, plan);
        let inner = with_op(
            scope_of(before, plan.site.scope)->Ok_0,
            plan.site.node,
            collect_box(plan.collect),
            plan_body(root, plan),
        );
        lemma_rewrite(before, plan.site.scope, plan.site.node, inner);
        lemma_frame_kept(
            before,
            plan.site.scope,
            plan.site.node,
            inner,
            other.scope,
            other.node,
            frame,
        );
    }
}

/// Giving empty collectors their bodies adds the gates they take over.
proof fn lemma_rewritten_tally(root: CircuitModel, plans: Seq<PlanModel>, frame: Seq<usize>)
    requires
        root.wf(),
        collectors_empty(root.ops),
        tells_apart(frame, root.num_qubits),
        plans_fit(root, plans, frame),
    ensures
        rewritten(root, plans).wf(),
        rewritten(root, plans).num_qubits == root.num_qubits,
        gate_tally(joined(strung(rewritten(root, plans).ops, Seq::empty(), frame, None)))
            == gate_tally(joined(strung(root.ops, Seq::empty(), frame, None))).add(
            gates_at(root, all_consumed(plans), frame),
        ),
    decreases plans.len(),
{
    let none = Seq::<usize>::empty();
    let first = gate_tally(joined(strung(root.ops, none, frame, None)));
    if plans.len() == 0 {
        assert(first.add(Multiset::empty()) =~= first);
    } else {
        let front = plans.drop_last();
        let plan = plans.last();
        let last = plans.len() - 1;
        assert(plans[last] == plan);
        lemma_plans_fit_front(root, plans, frame);
        lemma_rewritten_tally(root, front, frame);
        assert(plan_proper(root, plans[last], Set::empty()));
        lemma_rewritten_frame(root, front, plan.site, frame);
        let before = rewritten(root, front);
        let site = plan.site;
        let body = plan_body(root, plan);
        let op = collect_box(plan.collect);
        lemma_stands_at_exists(root, site.scope, site.node);
        lemma_stands_at_exists(before, site.scope, site.node);
        lemma_one_rewrite(root, before, plan);
        let inst = at_site(root, site);
        let scope = scope_of(before, site.scope)->Ok_0;
        assert(scope.get(site.node) == inst);
        let inner = with_op(scope, site.node, op, body);
        lemma_rewrite(before, site.scope, site.node, inner);
        assert(op.collect() == Some(plan.collect));
        lemma_beads_of_refill(before, site, op, body, frame, None);
        let down = frame_at(root, site.scope, frame);
        let steps = flat(body.ops, through(down, inst.qubits));
        let put = seq![Bead { stop: Ahead::At(site), steps }];
        let beads = strung(before.ops, none, frame, None);
        lemma_beads_single(before, 0, before.ops.len() as int, none, frame, None);
        assert(before.ops.subrange(0, before.ops.len() as int) =~= before.ops);
        assert(none + site.scope =~= site.scope);
        lemma_bead_of_site(before, none, site.scope, site.node, frame, None);
        lemma_empty_at(root, site.scope, site.node, down);
        lemma_patched_tally(beads, site, put, Seq::empty());
        lemma_tally_none();
        lemma_joined_one(put[0]);
        lemma_gates_at_add(root, all_consumed(front), plan.consumed, frame);
        let after = gate_tally(joined(strung(rewritten(root, plans).ops, none, frame, None)));
        assert(after.add(Multiset::empty()) =~= after);
        assert(first.add(gates_at(root, all_consumed(front), frame)).add(
            gates_at(root, plan.consumed, frame),
        ) =~= first.add(gates_at(root, all_consumed(plans), frame)));
    }
}

/// Taking instructions out takes out the gates they were.
proof fn lemma_cleared_tally(
    root: CircuitModel,
    base: CircuitModel,
    sites: Seq<SiteModel>,
    frame: Seq<usize>,
)
    requires
        base.wf(),
        tells_apart(frame, base.num_qubits),
        sites.no_duplicates(),
        forall|c: int|
            0 <= c < sites.len() ==> stands_at(base, (#[trigger] sites[c]).scope, sites[c].node)
                && site_instruction(base, sites[c]) == site_instruction(root, sites[c]) && frame_at(
                base,
                sites[c].scope,
                frame,
            ) == frame_at(root, sites[c].scope, frame),
    ensures
        cleared(base, sites).wf(),
        cleared(base, sites).num_qubits == base.num_qubits,
        gate_tally(joined(strung(cleared(base, sites).ops, Seq::empty(), frame, None))).add(
            gates_at(root, sites, frame),
        ) == gate_tally(joined(strung(base.ops, Seq::empty(), frame, None))),
        forall|other: SiteModel|
            #![trigger stands_at(base, other.scope, other.node)]
            stands_at(base, other.scope, other.node) && !sites.contains(other) ==> frame_at(
                cleared(base, sites),
                other.scope,
                frame,
            ) == frame_at(base, other.scope, frame),
    decreases sites.len(),
{
    let none = Seq::<usize>::empty();
    let whole = gate_tally(joined(strung(base.ops, none, frame, None)));
    if sites.len() == 0 {
        assert(whole.add(Multiset::empty()) =~= whole);
    } else {
        let front = sites.drop_last();
        let last = sites.len() - 1;
        let site = sites[last];
        assert forall|c: int| 0 <= c < front.len() implies stands_at(
            base,
            (#[trigger] front[c]).scope,
            front[c].node,
        ) && site_instruction(base, front[c]) == site_instruction(root, front[c]) && frame_at(
            base,
            front[c].scope,
            frame,
        ) == frame_at(root, front[c].scope, frame) by {
            assert(sites[c] == front[c]);
        }
        assert(front.no_duplicates()) by {
            assert forall|i: int, j: int|
                0 <= i < front.len() && 0 <= j < front.len() && i != j implies front[i] != front[j] by {
                assert(sites[i] != sites[j]);
            }
        }
        assert(!front.contains(site)) by {
            if front.contains(site) {
                let c = front.index_of(site);
                assert(front[c] == site);
                assert(sites[c] != sites[last]);
            }
        }
        lemma_cleared_tally(root, base, front, frame);
        assert(stands_at(base, site.scope, site.node));
        lemma_cleared(base, front, site);
        let before = cleared(base, front);
        lemma_stands_at_exists(before, site.scope, site.node);
        let scope = scope_of(before, site.scope)->Ok_0;
        let inner = without(scope, site.node);
        lemma_without(scope, site.node);
        lemma_rewrite(before, site.scope, site.node, inner);
        lemma_beads_of_removal(before, site, frame, None);
        let beads = strung(before.ops, none, frame, None);
        lemma_beads_single(before, 0, before.ops.len() as int, none, frame, None);
        assert(before.ops.subrange(0, before.ops.len() as int) =~= before.ops);
        assert(none + site.scope =~= site.scope);
        lemma_bead_of_site(before, none, site.scope, site.node, frame, None);
        let steps = flat_of(at_site(root, site), frame_at(root, site.scope, frame));
        lemma_patched_tally(beads, site, Seq::empty(), steps);
        lemma_tally_none();
        assert(joined(Seq::<Bead>::empty()) =~= Seq::<Step>::empty());
        let after = gate_tally(joined(strung(cleared(base, sites).ops, none, frame, None)));
        let middle = gate_tally(joined(beads));
        assert(middle.add(Multiset::empty()) =~= middle);
        assert(after.add(gates_at(root, sites, frame)) =~= after.add(gate_tally(steps)).add(
            gates_at(root, front, frame),
        ));
        assert forall|other: SiteModel|
            #![trigger stands_at(base, other.scope, other.node)]
            stands_at(base, other.scope, other.node) && !sites.contains(other) implies frame_at(
            cleared(base, sites),
            other.scope,
            frame,
        ) == frame_at(base, other.scope, frame) by {
            assert(!front.contains(other)) by {
                if front.contains(other) {
                    assert(sites[front.index_of(other)] == other);
                }
            }
            lemma_cleared(base, front, other);
            lemma_frame_kept(
                before,
                site.scope,
                site.node,
                inner,
                other.scope,
                other.node,
                frame,
            );
        }
    }
}

/// Plans made one after another can be carried out one after another.
proof fn lemma_plans_fit(root: CircuitModel, sites: Seq<SiteModel>, frame: Seq<usize>)
    requires
        root.wf(),
        root.num_qubits <= usize::MAX,
        run_size(root.ops) <= usize::MAX,
        sites.no_duplicates(),
        forall|k: int|
            0 <= k < sites.len() ==> stands_at(root, (#[trigger] sites[k]).scope, sites[k].node)
                && at_site(root, sites[k]).op.is_collector(),
        plans_for(root, sites) is Ok,
    ensures
        plans_fit(root, plans_for(root, sites)->Ok_0, frame),
    decreases sites.len(),
{
    let plans = plans_for(root, sites)->Ok_0;
    if sites.len() > 0 {
        let front = sites.drop_last();
        let last = sites.len() - 1;
        let site = sites[last];
        assert forall|k: int| 0 <= k < front.len() implies stands_at(
            root,
            (#[trigger] front[k]).scope,
            front[k].node,
        ) && at_site(root, front[k]).op.is_collector() by {
            assert(sites[k] == front[k]);
        }
        assert(front.no_duplicates()) by {
            assert forall|i: int, j: int|
                0 <= i < front.len() && 0 <= j < front.len() && i != j implies front[i] != front[j] by {
                assert(sites[i] != sites[j]);
            }
        }
        lemma_plans_fit(root, front, frame);
        lemma_plans_take_each_once(root, sites);
        let earlier = plans_for(root, front)->Ok_0;
        let plan = planned(root, site, claimed_by(earlier))->Ok_0;
        assert(plans == earlier.push(plan));
        lemma_planned(root, site, claimed_by(earlier));
        lemma_plan_tally(root, site, claimed_by(earlier), frame);
        lemma_sites_fit(root, plan.consumed);
        let left = outlook(root, site, Direction::Left, claimed_by(earlier));
        let right = outlook(root, site, Direction::Right, claimed_by(earlier));
        lemma_walk_takes_each_once(left);
        lemma_walk_takes_each_once(right);
        assert(plan.content.len() == plan.consumed.len());
        assert forall|p: int, q: int| 0 <= p < q < plans.len() implies (#[trigger] plans[p]).site != (
        #[trigger] plans[q]).site by {
            assert(plans[p].site == sites[p]);
            assert(plans[q].site == sites[q]);
            assert(sites[p] != sites[q]);
        }
        assert forall|p: int| 0 <= p < plans.len() implies plan_proper(
            root,
            #[trigger] plans[p],
            Set::empty(),
        ) && plans[p].content.len() <= usize::MAX && gate_tally(
            flat(
                plan_body(root, plans[p]).ops,
                through(
                    frame_at(root, plans[p].site.scope, frame),
                    at_site(root, plans[p].site).qubits,
                ),
            ),
        ) == gates_at(root, plans[p].consumed, frame) by {
            if p < earlier.len() {
                assert(plans[p] == earlier[p]);
            } else {
                assert(plans[p] == plan);
            }
        }
    }
}

/// Absorbing loses and invents no gate: counting those in boxes and in collectors too, the gates there are, each with
/// its parameters and its circuit qubits, are the same before and after. Collectors take gates over in place of what
/// they hold, so they hold nothing yet.
pub proof fn lemma_absorbing_keeps_every_gate(root: CircuitModel)
    requires
        root.wf(),
        root.num_qubits <= usize::MAX,
        run_size(root.ops) <= usize::MAX,
        collectors_empty(root.ops),
        absorption(root) is Ok,
    ensures
        gate_tally(steps_of(absorption(root)->Ok_0)) == gate_tally(steps_of(root)),
{
    let frame = own_qubits(root.num_qubits);
    let none = Seq::<usize>::empty();
    lemma_own_apart(root.num_qubits);
    lemma_swept(root, ScopeOrder::Innermost);
    let sites = swept(root, none, ScopeOrder::Innermost)->Ok_0;
    let plans = plans_for(root, sites)->Ok_0;
    lemma_plans_take_each_once(root, sites);
    lemma_plans_fit(root, sites, frame);
    lemma_rewritten_tally(root, plans, frame);
    let base = rewritten(root, plans);
    let gone = all_consumed(plans);
    assert forall|c: int| 0 <= c < gone.len() implies stands_at(
        base,
        (#[trigger] gone[c]).scope,
        gone[c].node,
    ) && site_instruction(base, gone[c]) == site_instruction(root, gone[c]) && frame_at(
        base,
        gone[c].scope,
        frame,
    ) == frame_at(root, gone[c].scope, frame) by {
        assert forall|p: int| 0 <= p < plans.len() implies (#[trigger] plans[p]).site != gone[c] by {
            assert(at_site(root, plans[p].site).op.is_collector());
        }
        lemma_rewritten_frame(root, plans, gone[c], frame);
    }
    lemma_cleared_tally(root, base, gone, frame);
    let after = cleared(base, gone);
    lemma_beads_are_the_run(root.ops, none, frame, None, root.num_qubits, root.num_clbits);
    lemma_beads_are_the_run(after.ops, none, frame, None, after.num_qubits, after.num_clbits);
    let one = gate_tally(steps_of(root));
    let other = gate_tally(steps_of(after));
    let moved = gates_at(root, gone, frame);
    assert(other.add(moved) == one.add(moved));
    assert forall|step: Step| one.count(step) == other.count(step) by {
        assert(one.add(moved).count(step) == one.count(step) + moved.count(step));
        assert(other.add(moved).count(step) == other.count(step) + moved.count(step));
    }
    assert(other =~= one);
}

// --- What absorbing keeps of the order on each wire -------------------------------------------------

/// A step as it is once an emission has come to rest: which way that was going is left out.
pub open spec fn at_rest(step: Step) -> Step {
    match step.op {
        OperationModel::Emit(emit) => Step {
            op: OperationModel::Emit(emit.localized()),
            params: Seq::empty(),
            qubits: step.qubits,
        },
        _ => step,
    }
}

/// Steps as they are once every emission has come to rest.
pub open spec fn all_at_rest(steps: Seq<Step>) -> Seq<Step> {
    steps.map_values(|step: Step| at_rest(step))
}

proof fn lemma_rest_on_qubit(steps: Seq<Step>, qubit: usize)
    ensures
        on_qubit(all_at_rest(steps), qubit) == all_at_rest(on_qubit(steps, qubit)),
    decreases steps.len(),
{
    if steps.len() > 0 {
        lemma_rest_on_qubit(steps.drop_last(), qubit);
        assert(all_at_rest(steps).drop_last() =~= all_at_rest(steps.drop_last()));
        assert(all_at_rest(steps).last() == at_rest(steps.last()));
        assert(on_qubit(all_at_rest(steps), qubit) =~= all_at_rest(on_qubit(steps, qubit)));
    } else {
        assert(all_at_rest(steps) =~= Seq::<Step>::empty());
        assert(all_at_rest(on_qubit(steps, qubit)) =~= Seq::<Step>::empty());
    }
}

/// Some beads without those at some sites.
spec fn struck(beads: Seq<Bead>, sites: Seq<SiteModel>) -> Seq<Bead>
    decreases sites.len(),
{
    if sites.len() == 0 {
        beads
    } else {
        patched(struck(beads, sites.drop_last()), sites.last(), Seq::empty())
    }
}

proof fn lemma_struck_add(left: Seq<Bead>, right: Seq<Bead>, sites: Seq<SiteModel>)
    ensures
        struck(left + right, sites) == struck(left, sites) + struck(right, sites),
    decreases sites.len(),
{
    if sites.len() > 0 {
        let front = sites.drop_last();
        lemma_struck_add(left, right, front);
        lemma_patched_add(struck(left, front), struck(right, front), sites.last(), Seq::empty());
    }
}

proof fn lemma_struck_more(beads: Seq<Bead>, first: Seq<SiteModel>, more: Seq<SiteModel>)
    ensures
        struck(beads, first + more) == struck(struck(beads, first), more),
    decreases more.len(),
{
    if more.len() == 0 {
        assert(first + more =~= first);
    } else {
        lemma_struck_more(beads, first, more.drop_last());
        assert((first + more).drop_last() =~= first + more.drop_last());
        assert((first + more).last() == more.last());
    }
}

/// Whether no bead is at one of some sites.
spec fn clear_of(beads: Seq<Bead>, sites: Seq<SiteModel>) -> bool {
    forall|k: int|
        0 <= k < beads.len() ==> ((#[trigger] beads[k]).stop matches Ahead::At(site)
            ==> !sites.contains(site))
}

/// Whether every bead is at one of some sites.
spec fn held_in(beads: Seq<Bead>, sites: Seq<SiteModel>) -> bool {
    forall|k: int|
        0 <= k < beads.len() ==> ((#[trigger] beads[k]).stop matches Ahead::At(site)
            && sites.contains(site))
}

proof fn lemma_struck_clear(beads: Seq<Bead>, sites: Seq<SiteModel>)
    requires
        clear_of(beads, sites),
    ensures
        struck(beads, sites) == beads,
    decreases sites.len(),
{
    if sites.len() > 0 {
        let front = sites.drop_last();
        let last = sites.len() - 1;
        assert forall|k: int| 0 <= k < beads.len() implies ((
        #[trigger] beads[k]).stop matches Ahead::At(site) ==> !front.contains(site)) by {
            if let Ahead::At(site) = beads[k].stop {
                if front.contains(site) {
                    assert(sites[front.index_of(site)] == site);
                }
            }
        }
        lemma_struck_clear(beads, front);
        assert(sites.contains(sites[last]));
        lemma_patched_absent(beads, sites.last(), Seq::empty());
    }
}

proof fn lemma_struck_one(bead: Bead, sites: Seq<SiteModel>)
    requires
        bead.stop is At,
        sites.contains(bead.stop->At_0),
    ensures
        struck(seq![bead], sites) == Seq::<Bead>::empty(),
    decreases sites.len(),
{
    let site = bead.stop->At_0;
    let one = seq![bead];
    let none = Seq::<Bead>::empty();
    if sites.len() > 0 {
        let front = sites.drop_last();
        if front.contains(site) {
            lemma_struck_one(bead, front);
            assert(patched(none, sites.last(), none) =~= none);
        } else {
            let k = sites.index_of(site);
            assert(sites[k] == site);
            if k < front.len() {
                assert(front[k] == site);
            }
            assert(sites.last() == site);
            lemma_struck_clear(one, front);
            lemma_patched_one(bead, site, none);
        }
    }
}

proof fn lemma_struck_all(beads: Seq<Bead>, sites: Seq<SiteModel>)
    requires
        held_in(beads, sites),
    ensures
        struck(beads, sites) == Seq::<Bead>::empty(),
    decreases beads.len(),
{
    if beads.len() == 0 {
        lemma_struck_clear(beads, sites);
    } else {
        let front = beads.drop_last();
        let last = beads.len() - 1;
        assert forall|k: int| 0 <= k < front.len() implies ((
        #[trigger] front[k]).stop matches Ahead::At(site) && sites.contains(site)) by {
            assert(beads[k] == front[k]);
        }
        lemma_struck_all(front, sites);
        assert(beads =~= front + seq![beads[last]]);
        lemma_struck_add(front, seq![beads[last]], sites);
        assert(beads[last].stop is At && sites.contains(beads[last].stop->At_0));
        lemma_struck_one(beads[last], sites);
        assert(Seq::<Bead>::empty() + Seq::<Bead>::empty() =~= Seq::<Bead>::empty());
    }
}

/// Changing the bead of one site and dropping that of another can be done in either order.
proof fn lemma_patches_commute(beads: Seq<Bead>, site: SiteModel, put: Seq<Bead>, other: SiteModel)
    requires
        site != other,
        put.len() == 1,
        put[0].stop == Ahead::At(site),
    ensures
        patched(patched(beads, other, Seq::empty()), site, put) == patched(
            patched(beads, site, put),
            other,
            Seq::empty(),
        ),
    decreases beads.len(),
{
    let none = Seq::<Bead>::empty();
    if beads.len() > 0 {
        let front = beads.drop_last();
        let bead = beads.last();
        lemma_patches_commute(front, site, put, other);
        assert(beads =~= front + seq![bead]);
        lemma_patched_add(front, seq![bead], site, put);
        lemma_patched_add(front, seq![bead], other, none);
        lemma_patched_one(bead, site, put);
        lemma_patched_one(bead, other, none);
        lemma_patched_add(
            patched(front, other, none),
            patched(seq![bead], other, none),
            site,
            put,
        );
        lemma_patched_add(
            patched(front, site, put),
            patched(seq![bead], site, put),
            other,
            none,
        );
        assert(patched(none, site, put) =~= none);
        assert(put =~= seq![put[0]]);
        lemma_patched_one(put[0], other, none);
    }
}

proof fn lemma_strike_commutes(beads: Seq<Bead>, site: SiteModel, put: Seq<Bead>, sites: Seq<SiteModel>)
    requires
        !sites.contains(site),
        put.len() == 1,
        put[0].stop == Ahead::At(site),
    ensures
        patched(struck(beads, sites), site, put) == struck(patched(beads, site, put), sites),
    decreases sites.len(),
{
    if sites.len() > 0 {
        let front = sites.drop_last();
        let last = sites.len() - 1;
        assert(!front.contains(site)) by {
            if front.contains(site) {
                assert(sites[front.index_of(site)] == site);
            }
        }
        lemma_strike_commutes(beads, site, put, front);
        assert(sites[last] == sites.last());
        lemma_patches_commute(struck(beads, front), site, put, sites.last());
    }
}

/// Beads cut at a collector that holds nothing: what it takes over lies next to it on either side, and, come to rest,
/// is what it is given.
spec fn cut_at(
    beads: Seq<Bead>,
    site: SiteModel,
    consumed: Seq<SiteModel>,
    steps: Seq<Step>,
    before: Seq<Bead>,
    left: Seq<Bead>,
    own: Bead,
    right: Seq<Bead>,
    after: Seq<Bead>,
) -> bool {
    &&& beads == before + left + seq![own] + right + after
    &&& own.stop == Ahead::At(site)
    &&& own.steps.len() == 0
    &&& held_in(left, consumed)
    &&& held_in(right, consumed)
    &&& clear_of(before, consumed.push(site))
    &&& clear_of(after, consumed.push(site))
    &&& all_at_rest(steps) == all_at_rest(joined(left) + joined(right))
}

/// Whether what a collector takes over lies next to it, or neither it nor any of that is there.
spec fn gathered(
    beads: Seq<Bead>,
    site: SiteModel,
    consumed: Seq<SiteModel>,
    steps: Seq<Step>,
) -> bool {
    ||| clear_of(beads, consumed.push(site))
    ||| exists|before: Seq<Bead>, left: Seq<Bead>, own: Bead, right: Seq<Bead>, after: Seq<Bead>|
        #[trigger]
        cut_at(beads, site, consumed, steps, before, left, own, right, after)
}

proof fn lemma_clear_front(beads: Seq<Bead>, site: SiteModel, consumed: Seq<SiteModel>)
    requires
        clear_of(beads, consumed.push(site)),
    ensures
        clear_of(beads, consumed),
        absent(beads, site),
{
    let all = consumed.push(site);
    assert(all[consumed.len() as int] == site);
    assert(all.contains(site));
    assert forall|k: int| 0 <= k < beads.len() implies ((
    #[trigger] beads[k]).stop matches Ahead::At(other) ==> !consumed.contains(other)) by {
        if let Ahead::At(other) = beads[k].stop {
            if consumed.contains(other) {
                assert(all[consumed.index_of(other)] == other);
                assert(all.contains(other));
            }
        }
    }
}

proof fn lemma_patched_stays_clear(
    beads: Seq<Bead>,
    sites: Seq<SiteModel>,
    other: SiteModel,
    put: Seq<Bead>,
)
    requires
        clear_of(beads, sites),
        !sites.contains(other),
        put.len() <= 1,
        put.len() == 1 ==> put[0].stop == Ahead::At(other),
    ensures
        clear_of(patched(beads, other, put), sites),
    decreases beads.len(),
{
    if beads.len() > 0 {
        let front = beads.drop_last();
        assert forall|k: int| 0 <= k < front.len() implies ((
        #[trigger] front[k]).stop matches Ahead::At(site) ==> !sites.contains(site)) by {
            assert(beads[k] == front[k]);
        }
        lemma_patched_stays_clear(front, sites, other, put);
        let some = patched(front, other, put);
        let all = patched(beads, other, put);
        let last = beads.len() - 1;
        assert forall|k: int| 0 <= k < all.len() implies ((
        #[trigger] all[k]).stop matches Ahead::At(site) ==> !sites.contains(site)) by {
            if k < some.len() {
                assert(all[k] == some[k]);
            } else if beads[last].stop == Ahead::At(other) {
                assert(all[k] == put[k - some.len()]);
            } else {
                assert(all[k] == beads[last]);
            }
        }
    }
}

proof fn lemma_held_apart(beads: Seq<Bead>, sites: Seq<SiteModel>, other: SiteModel)
    requires
        held_in(beads, sites),
        !sites.contains(other),
    ensures
        absent(beads, other),
{
}

/// Changing the bead of another site leaves what a collector takes over next to it.
proof fn lemma_stays_gathered(
    beads: Seq<Bead>,
    site: SiteModel,
    consumed: Seq<SiteModel>,
    steps: Seq<Step>,
    other: SiteModel,
    put: Seq<Bead>,
)
    requires
        gathered(beads, site, consumed, steps),
        !consumed.push(site).contains(other),
        put.len() <= 1,
        put.len() == 1 ==> put[0].stop == Ahead::At(other),
    ensures
        gathered(patched(beads, other, put), site, consumed, steps),
{
    let all = consumed.push(site);
    if clear_of(beads, all) {
        lemma_patched_stays_clear(beads, all, other, put);
    } else {
        let (before, left, own, right, after) = choose|
            before: Seq<Bead>,
            left: Seq<Bead>,
            own: Bead,
            right: Seq<Bead>,
            after: Seq<Bead>,
        | #[trigger]
            cut_at(beads, site, consumed, steps, before, left, own, right, after);
        assert(!consumed.contains(other)) by {
            if consumed.contains(other) {
                assert(all[consumed.index_of(other)] == other);
            }
        }
        assert(other != site) by {
            assert(all[consumed.len() as int] == site);
        }
        lemma_patched_add(before + left + seq![own] + right, after, other, put);
        lemma_patched_add(before + left + seq![own], right, other, put);
        lemma_patched_add(before + left, seq![own], other, put);
        lemma_patched_add(before, left, other, put);
        lemma_held_apart(left, consumed, other);
        lemma_held_apart(right, consumed, other);
        lemma_patched_absent(left, other, put);
        lemma_patched_absent(right, other, put);
        lemma_patched_one(own, other, put);
        lemma_patched_stays_clear(before, all, other, put);
        lemma_patched_stays_clear(after, all, other, put);
        assert(cut_at(
            patched(beads, other, put),
            site,
            consumed,
            steps,
            patched(before, other, put),
            left,
            own,
            right,
            patched(after, other, put),
        ));
    }
}

proof fn lemma_struck_stays_gathered(
    beads: Seq<Bead>,
    site: SiteModel,
    consumed: Seq<SiteModel>,
    steps: Seq<Step>,
    others: Seq<SiteModel>,
)
    requires
        gathered(beads, site, consumed, steps),
        forall|k: int| 0 <= k < others.len() ==> !consumed.push(site).contains(#[trigger] others[k]),
    ensures
        gathered(struck(beads, others), site, consumed, steps),
    decreases others.len(),
{
    if others.len() > 0 {
        let front = others.drop_last();
        let last = others.len() - 1;
        assert forall|k: int| 0 <= k < front.len() implies !consumed.push(site).contains(
            #[trigger] front[k],
        ) by {
            assert(others[k] == front[k]);
        }
        lemma_struck_stays_gathered(beads, site, consumed, steps, front);
        assert(!consumed.push(site).contains(others[last]));
        lemma_stays_gathered(
            struck(beads, front),
            site,
            consumed,
            steps,
            others.last(),
            Seq::empty(),
        );
    }
}

/// Taking over what lies next to a collector changes nothing of what the beads take once it has come to rest.
proof fn lemma_gathering_keeps_order(
    beads: Seq<Bead>,
    site: SiteModel,
    consumed: Seq<SiteModel>,
    steps: Seq<Step>,
)
    requires
        gathered(beads, site, consumed, steps),
        !consumed.contains(site),
    ensures
        all_at_rest(
            joined(
                struck(
                    patched(beads, site, seq![Bead { stop: Ahead::At(site), steps }]),
                    consumed,
                ),
            ),
        ) == all_at_rest(joined(beads)),
{
    let full = Bead { stop: Ahead::At(site), steps };
    let put = seq![full];
    let all = consumed.push(site);
    if clear_of(beads, all) {
        lemma_clear_front(beads, site, consumed);
        lemma_patched_absent(beads, site, put);
        lemma_struck_clear(beads, consumed);
    } else {
        let (before, left, own, right, after) = choose|
            before: Seq<Bead>,
            left: Seq<Bead>,
            own: Bead,
            right: Seq<Bead>,
            after: Seq<Bead>,
        | #[trigger]
            cut_at(beads, site, consumed, steps, before, left, own, right, after);
        let one = seq![own];
        lemma_clear_front(before, site, consumed);
        lemma_clear_front(after, site, consumed);
        lemma_held_apart(left, consumed, site);
        lemma_held_apart(right, consumed, site);
        lemma_patched_add(before + left + one + right, after, site, put);
        lemma_patched_add(before + left + one, right, site, put);
        lemma_patched_add(before + left, one, site, put);
        lemma_patched_add(before, left, site, put);
        lemma_patched_absent(before, site, put);
        lemma_patched_absent(left, site, put);
        lemma_patched_absent(right, site, put);
        lemma_patched_absent(after, site, put);
        lemma_patched_one(own, site, put);
        let filled = patched(beads, site, put);
        assert(filled == before + left + put + right + after);
        lemma_struck_add(before + left + put + right, after, consumed);
        lemma_struck_add(before + left + put, right, consumed);
        lemma_struck_add(before + left, put, consumed);
        lemma_struck_add(before, left, consumed);
        lemma_struck_clear(before, consumed);
        lemma_struck_clear(after, consumed);
        lemma_struck_clear(put, consumed);
        lemma_struck_all(left, consumed);
        lemma_struck_all(right, consumed);
        let done = struck(filled, consumed);
        assert(done =~= before + put + after);
        lemma_joined_add(before + put, after);
        lemma_joined_add(before, put);
        lemma_joined_one(full);
        lemma_joined_add(before + left + one + right, after);
        lemma_joined_add(before + left + one, right);
        lemma_joined_add(before + left, one);
        lemma_joined_add(before, left);
        lemma_joined_one(own);
        let b = joined(before);
        let l = joined(left);
        let r = joined(right);
        let a = joined(after);
        assert(joined(beads) =~= b + l + r + a);
        assert(all_at_rest(b + steps + a) =~= all_at_rest(b) + all_at_rest(steps) + all_at_rest(a));
        assert(all_at_rest(b + l + r + a) =~= all_at_rest(b) + all_at_rest(l + r) + all_at_rest(a));
    }
}

/// The step at a site of a circuit, read through the circuit's own frame.
spec fn step_at(root: CircuitModel, site: SiteModel, frame: Seq<usize>) -> Step {
    let inst = at_site(root, site);
    Step {
        op: inst.op,
        params: inst.params,
        qubits: through(frame_at(root, site.scope, frame), inst.qubits),
    }
}

/// The steps at some stops on a wire, come to rest.
spec fn rested(root: CircuitModel, stops: Seq<Ahead>, frame: Seq<usize>) -> Seq<Step> {
    Seq::new(stops.len(), |k: int| at_rest(step_at(root, stops[k]->At_0, frame)))
}

/// What was taken off a wire was taken, and what was taken and is on the wire was taken off it.
proof fn lemma_pulled(look: Outlook, consumed: Seq<SiteModel>, qubit: usize)
    ensures
        forall|k: int|
            0 <= k < pulled(look, consumed, qubit).len() ==> ((#[trigger] pulled(
                look,
                consumed,
                qubit,
            )[k]) matches Ahead::At(site) && consumed.contains(site) && look.wires(site).contains(
                qubit,
            )),
        forall|c: int|
            0 <= c < consumed.len() && look.wires(#[trigger] consumed[c]).contains(qubit) ==> pulled(
                look,
                consumed,
                qubit,
            ).contains(Ahead::At(consumed[c])),
    decreases consumed.len(),
{
    if consumed.len() > 0 {
        let front = consumed.drop_last();
        let last = consumed.len() - 1;
        lemma_pulled(look, front, qubit);
        let some = pulled(look, front, qubit);
        let all = pulled(look, consumed, qubit);
        assert forall|k: int| 0 <= k < all.len() implies ((#[trigger] all[k]) matches Ahead::At(site)
            && consumed.contains(site) && look.wires(site).contains(qubit)) by {
            if k < some.len() {
                assert(all[k] == some[k]);
                let site = some[k]->At_0;
                assert(consumed[front.index_of(site)] == site);
            } else {
                assert(all[k] == Ahead::At(consumed[last]));
            }
        }
        assert forall|c: int| 0 <= c < consumed.len() && look.wires(
            #[trigger] consumed[c],
        ).contains(qubit) implies all.contains(Ahead::At(consumed[c])) by {
            if c < last {
                assert(front[c] == consumed[c]);
                let k = some.index_of(Ahead::At(consumed[c]));
                assert(some[k] == Ahead::At(consumed[c]));
                assert(all[k] == some[k]);
            } else {
                assert(all[all.len() - 1] == Ahead::At(consumed[last]));
            }
        }
    }
}

/// What a walk took, seen on one qubit, is what it took off that wire, come to rest.
proof fn lemma_walk_line(
    look: Outlook,
    content: Seq<BodyOpModel>,
    consumed: Seq<SiteModel>,
    frame: Seq<usize>,
    v: usize,
)
    requires
        look.wf(),
        tells_apart(frame_at(look.root, look.site.scope, frame), look.scope().num_qubits),
        v < look.scope().num_qubits,
        content.len() == consumed.len(),
        forall|c: int|
            0 <= c < consumed.len() ==> rightly_taken(look, #[trigger] consumed[c], content[c]),
    ensures
        ({
            let down = frame_at(look.root, look.site.scope, frame);
            let line = on_qubit(absorbed_steps(look.root, content, down), down[v as int]);
            &&& line == rested(look.root, pulled(look, consumed, v), frame)
            &&& all_at_rest(line) == line
        }),
    decreases content.len(),
{
    let down = frame_at(look.root, look.site.scope, frame);
    let q = down[v as int];
    let steps = absorbed_steps(look.root, content, down);
    if content.len() == 0 {
        assert(steps =~= Seq::<Step>::empty());
        assert(rested(look.root, pulled(look, consumed, v), frame) =~= Seq::<Step>::empty());
        assert(all_at_rest(Seq::<Step>::empty()) =~= Seq::<Step>::empty());
    } else {
        let last = content.len() - 1;
        let few = content.drop_last();
        let fewer = consumed.drop_last();
        assert forall|c: int| 0 <= c < fewer.len() implies rightly_taken(
            look,
            #[trigger] fewer[c],
            few[c],
        ) by {
            assert(consumed[c] == fewer[c]);
            assert(content[c] == few[c]);
        }
        lemma_walk_line(look, few, fewer, frame, v);
        let site = consumed[last];
        assert(rightly_taken(look, site, content[last]));
        lemma_absorbed_is_there(look, site, content[last], frame);
        let step = steps[last];
        assert(step == at_rest(step_at(look.root, site, frame)));
        assert(at_rest(step) == step);
        assert(steps.drop_last() =~= absorbed_steps(look.root, few, down));
        assert(steps.last() == step);
        let wires = look.wires(site);
        assert(step.qubits == through(down, wires));
        assert(step.qubits.contains(q) <==> wires.contains(v)) by {
            if wires.contains(v) {
                let k = wires.index_of(v);
                assert(wires[k] == v);
                assert(step.qubits[k] == q);
            }
            if step.qubits.contains(q) {
                let k = step.qubits.index_of(q);
                assert(step.qubits[k] == q);
                assert(wires[k] < look.scope().num_qubits);
                assert(down[wires[k] as int] == down[v as int]);
                assert(wires[k] == v);
            }
        }
        let line = on_qubit(steps, q);
        assert(line =~= rested(look.root, pulled(look, consumed, v), frame));
        assert(all_at_rest(line) =~= line);
    }
}

proof fn lemma_on_qubit_turned(steps: Seq<Step>, qubit: usize)
    ensures
        on_qubit(steps.reverse(), qubit) == on_qubit(steps, qubit).reverse(),
    decreases steps.len(),
{
    if steps.len() == 0 {
        assert(steps.reverse() =~= steps);
        assert(on_qubit(steps, qubit).reverse() =~= Seq::<Step>::empty());
    } else {
        let front = steps.drop_last();
        let one = seq![steps.last()];
        lemma_on_qubit_turned(front, qubit);
        assert(steps.reverse() =~= one + front.reverse());
        lemma_on_qubit_add(one, front.reverse(), qubit);
        let none = Seq::<Step>::empty();
        assert(one.drop_last() =~= none);
        assert(on_qubit(none, qubit) =~= none);
        assert(one.last() == steps.last());
        let few = on_qubit(front, qubit);
        if steps.last().qubits.contains(qubit) {
            assert(on_qubit(one, qubit) =~= one);
            assert(few.push(steps.last()).reverse() =~= one + few.reverse());
        } else {
            assert(on_qubit(one, qubit) =~= none);
            assert(none + few.reverse() =~= few.reverse());
        }
    }
}

/// A stop of a scope on a wire is on that wire as seen from a collector of the scope.
proof fn lemma_stop_on_wire(look: Outlook, down: Seq<usize>, v: usize, k: int)
    requires
        look.wf(),
        0 <= k < strung(look.scope().ops, look.site.scope, down, Some(v)).len(),
        strung(look.scope().ops, look.site.scope, down, Some(v))[k].stop is At,
    ensures
        look.wires(
            strung(look.scope().ops, look.site.scope, down, Some(v))[k].stop->At_0,
        ).contains(v),
{
    lemma_outlook(look);
    let scope = look.scope();
    let count = scope.ops.len() as int;
    assert(scope.ops.take(count) =~= scope.ops);
    lemma_run_stands(scope, look.site.scope, count, v);
    lemma_beads_follow_the_wire(scope.ops, look.site.scope, down, v);
    lemma_stop(look, v, along(scope.ops, look.site.scope, v), k);
}

/// What beads of sites taken over take, they take one step each.
proof fn lemma_taken_beads(
    look: Outlook,
    content: Seq<BodyOpModel>,
    consumed: Seq<SiteModel>,
    beads: Seq<Bead>,
    part: Seq<Bead>,
    frame: Seq<usize>,
    w: usize,
    v: usize,
)
    requires
        look.wf(),
        tells_apart(frame, look.root.num_qubits),
        w < look.root.num_qubits,
        tells_apart(frame_at(look.root, look.site.scope, frame), look.scope().num_qubits),
        v < look.scope().num_qubits,
        frame_at(look.root, look.site.scope, frame)[v as int] == frame[w as int],
        content.len() == consumed.len(),
        forall|c: int|
            0 <= c < consumed.len() ==> rightly_taken(look, #[trigger] consumed[c], content[c]),
        beads == strung(look.root.ops, Seq::empty(), frame, Some(w)),
        single(beads),
        forall|k: int|
            0 <= k < part.len() ==> beads.contains(#[trigger] part[k]) && (
            part[k].stop matches Ahead::At(site) && consumed.contains(site) && look.wires(
                site,
            ).contains(v)),
    ensures
        joined(part) == Seq::new(
            part.len(),
            |k: int| step_at(look.root, part[k].stop->At_0, frame),
        ),
    decreases part.len(),
{
    let root = look.root;
    let all = Seq::new(part.len(), |k: int| step_at(root, part[k].stop->At_0, frame));
    if part.len() == 0 {
        assert(all =~= Seq::<Step>::empty());
    } else {
        let front = part.drop_last();
        let last = part.len() - 1;
        assert forall|k: int| 0 <= k < front.len() implies beads.contains(#[trigger] front[k]) && (
        front[k].stop matches Ahead::At(site) && consumed.contains(site) && look.wires(
            site,
        ).contains(v)) by {
            assert(part[k] == front[k]);
        }
        lemma_taken_beads(look, content, consumed, beads, front, frame, w, v);
        let bead = part[last];
        assert(beads.contains(bead));
        let site = bead.stop->At_0;
        let c = consumed.index_of(site);
        assert(consumed[c] == site);
        assert(rightly_taken(look, consumed[c], content[c]));
        lemma_absorbed_is_there(look, site, content[c], frame);
        let none = Seq::<usize>::empty();
        assert(none + site.scope =~= site.scope);
        lemma_stands_at_exists(root, site.scope, site.node);
        lemma_bead_of_site(root, none, site.scope, site.node, frame, Some(w));
        let step = step_at(root, site, frame);
        let steps = on_qubit(seq![step], frame[w as int]);
        let said = Bead { stop: Ahead::At(site), steps };
        let i = beads.index_of(bead);
        assert(beads[i] == bead);
        assert(beads.contains(said));
        let j = beads.index_of(said);
        assert(beads[j] == said);
        if i < j {
            assert(beads[i].stop != beads[j].stop);
        } else if j < i {
            assert(beads[j].stop != beads[i].stop);
        }
        assert(bead == said);
        assert(step.qubits.contains(frame[w as int])) by {
            let down = frame_at(root, look.site.scope, frame);
            let wires = look.wires(site);
            let k = wires.index_of(v);
            assert(wires[k] == v);
            assert(step.qubits == through(down, wires));
            assert(step.qubits[k] == frame[w as int]);
        }
        assert(seq![step].drop_last() =~= Seq::<Step>::empty());
        assert(on_qubit(seq![step].drop_last(), frame[w as int]) =~= Seq::<Step>::empty());
        assert(steps =~= seq![step]);
        assert(joined(part) =~= all);
    }
}

/// Where a collector is among the beads of a wire, if it or anything it takes over is: what it takes over to the left
/// lies next to it one way, and what it takes over to the right the other way, each in the order it was taken.
proof fn lemma_collector_among_beads(
    root: CircuitModel,
    site: SiteModel,
    claimed: Set<SiteModel>,
    frame: Seq<usize>,
    w: usize,
    i: int,
) -> (c: int)
    requires
        root.wf(),
        stands_at(root, site.scope, site.node),
        at_site(root, site).op.is_collector(),
        planned(root, site, claimed) is Ok,
        tells_apart(frame, root.num_qubits),
        w < root.num_qubits,
        0 <= i < strung(root.ops, Seq::empty(), frame, Some(w)).len(),
        ({
            let stop = strung(root.ops, Seq::empty(), frame, Some(w))[i].stop;
            stop matches Ahead::At(other) && planned(root, site, claimed)->Ok_0.consumed.push(
                site,
            ).contains(other)
        }),
    ensures
        ({
            let beads = strung(root.ops, Seq::empty(), frame, Some(w));
            let left = outlook(root, site, Direction::Left, claimed);
            let right = outlook(root, site, Direction::Right, claimed);
            let wire = wire_at(root, site.scope, Some(w));
            let v = wire->Some_0;
            let near = pulled(left, rounds(left, left.start())->Ok_0.consumed, v);
            let far = pulled(right, rounds(right, right.start())->Ok_0.consumed, v);
            let other = beads[i].stop->At_0;
            &&& wire is Some
            &&& v < left.scope().num_qubits
            &&& frame_at(root, site.scope, frame)[v as int] == frame[w as int]
            &&& tells_apart(frame_at(root, site.scope, frame), left.scope().num_qubits)
            &&& at_site(root, site).touches(v)
            &&& near.len() <= c
            &&& c + 1 + far.len() <= beads.len()
            &&& beads[c].stop == Ahead::At(site)
            &&& forall|k: int|
                0 <= k < near.len() ==> beads[c - 1 - k].stop == #[trigger] near[k]
            &&& forall|k: int| 0 <= k < far.len() ==> beads[c + 1 + k].stop == #[trigger] far[k]
            &&& other != site ==> left.wires(other).contains(v) && right.wires(other).contains(v)
        }),
{
    let none = Seq::<usize>::empty();
    let beads = strung(root.ops, none, frame, Some(w));
    let plan = planned(root, site, claimed)->Ok_0;
    let other = beads[i].stop->At_0;
    let left = outlook(root, site, Direction::Left, claimed);
    let right = outlook(root, site, Direction::Right, claimed);
    let before = rounds(left, left.start())->Ok_0;
    let after = rounds(right, right.start())->Ok_0;
    lemma_walk_takes_each_once(left);
    lemma_walk_takes_each_once(right);
    lemma_outlook(left);
    lemma_stands_at_inside(root, site.scope, site.node);
    let scope = left.scope();
    let down = frame_at(root, site.scope, frame);
    assert(none + site.scope =~= site.scope);
    assert(other.scope.len() >= site.scope.len() && other.scope.take(site.scope.len() as int)
        == site.scope && (other != site ==> forall|k: int|
        0 <= k < left.wires(other).len() ==> left.qubits.contains(#[trigger] left.wires(other)[k])))
        by {
        let all = plan.consumed.push(site);
        let k = all.index_of(other);
        assert(all[k] == other);
        if k == plan.consumed.len() {
            assert(site.scope.take(site.scope.len() as int) =~= site.scope);
        } else if k < before.consumed.len() {
            assert(other == before.consumed[k]);
            assert(rightly_taken(left, before.consumed[k], before.content[k]));
        } else {
            let d = k - before.consumed.len();
            assert(other == after.consumed[d]);
            assert(rightly_taken(right, after.consumed[d], after.content[d]));
        }
    }
    let a = lemma_descend(root, none, site.scope, site.node, frame, Some(w), other, i);
    lemma_frame_at(root, site.scope, site.node, frame, Some(w));
    let v = wire_at(root, site.scope, Some(w))->Some_0;
    let here = strung(scope.ops, site.scope, down, Some(v));
    assert(here[i - a] == beads.subrange(a, a + here.len())[i - a]);
    lemma_stop_on_wire(left, down, v, i - a);
    let at = scope.at(site.node);
    let inst = scope.ops[at];
    assert(inst.node == site.node);
    assert(at_site(root, site) == inst);
    if other == site {
        assert(left.wires(site) =~= inst.qubits) by {
            assert(site.scope.skip(site.scope.len() as int) =~= none);
        }
    } else {
        let k = left.wires(other).index_of(v);
        assert(left.wires(other)[k] == v);
    }
    assert(inst.touches(v));
    let first = strung(scope.ops.take(at), site.scope, down, Some(v));
    let own = strung_of(inst, site.scope, down, Some(v));
    let rest = strung(scope.ops.skip(at + 1), site.scope, down, Some(v));
    lemma_strung_split(scope.ops, at, site.scope, down, Some(v));
    lemma_beads_follow_the_wire(scope.ops.take(at), site.scope, down, v);
    lemma_beads_follow_the_wire(scope.ops.skip(at + 1), site.scope, down, v);
    let m = first.len() as int;
    let c = a + m;
    assert(own.len() == 1 && own[0].stop == Ahead::At(site));
    assert(here[m] == own[0]);
    assert(beads[c] == beads.subrange(a, a + here.len())[m]);
    let x = left.qubits.index_of(v);
    assert(left.qubits.contains(v));
    assert(left.qubits[x] == v);
    let near = pulled(left, before.consumed, v);
    let far = pulled(right, after.consumed, v);
    assert(left.front(left.qubits[x]) == near + before.fronts[x]);
    assert(right.front(right.qubits[x]) == far + after.fronts[x]);
    let run = along(scope.ops.take(at), site.scope, v);
    assert(left.front(v) == run.reverse());
    assert(right.front(v) == along(scope.ops.skip(at + 1), site.scope, v));
    assert forall|k: int| 0 <= k < near.len() implies beads[c - 1 - k].stop == #[trigger] near[k] by {
        assert(left.front(v)[k] == near[k]);
        assert(run.reverse()[k] == run[m - 1 - k]);
        assert(first[m - 1 - k].stop == near[k]);
        assert(here[m - 1 - k] == first[m - 1 - k]);
        assert(beads[a + (m - 1 - k)] == beads.subrange(a, a + here.len())[m - 1 - k]);
    }
    assert forall|k: int| 0 <= k < far.len() implies beads[c + 1 + k].stop == #[trigger] far[k] by {
        assert(right.front(v)[k] == far[k]);
        assert(rest[k].stop == far[k]);
        assert(here[m + 1 + k] == rest[k]);
        assert(beads[a + (m + 1 + k)] == beads.subrange(a, a + here.len())[m + 1 + k]);
    }
    assert(near.len() <= run.len());
    assert(left.wires(other) == right.wires(other));
    c
}

/// On every wire of the circuit, what an empty collector takes over lies next to it, and come to rest it is what the
/// collector is given.
proof fn lemma_plan_gathered(
    root: CircuitModel,
    site: SiteModel,
    claimed: Set<SiteModel>,
    frame: Seq<usize>,
    w: usize,
)
    requires
        root.wf(),
        collectors_empty(root.ops),
        stands_at(root, site.scope, site.node),
        at_site(root, site).op.is_collector(),
        planned(root, site, claimed) is Ok,
        tells_apart(frame, root.num_qubits),
        w < root.num_qubits,
    ensures
        gathered(
            strung(root.ops, Seq::empty(), frame, Some(w)),
            site,
            planned(root, site, claimed)->Ok_0.consumed,
            on_qubit(
                flat(
                    plan_body(root, planned(root, site, claimed)->Ok_0).ops,
                    through(frame_at(root, site.scope, frame), at_site(root, site).qubits),
                ),
                frame[w as int],
            ),
        ),
{
    let none = Seq::<usize>::empty();
    let beads = strung(root.ops, none, frame, Some(w));
    let plan = planned(root, site, claimed)->Ok_0;
    let all = plan.consumed.push(site);
    if !clear_of(beads, all) {
        let i = choose|i: int|
            0 <= i < beads.len() && ((#[trigger] beads[i]).stop matches Ahead::At(other)
                && all.contains(other));
        let c = lemma_collector_among_beads(root, site, claimed, frame, w, i);
        let left = outlook(root, site, Direction::Left, claimed);
        let right = outlook(root, site, Direction::Right, claimed);
        let before = rounds(left, left.start())->Ok_0;
        let after = rounds(right, right.start())->Ok_0;
        let v = wire_at(root, site.scope, Some(w))->Some_0;
        let near = pulled(left, before.consumed, v);
        let far = pulled(right, after.consumed, v);
        let first = beads.take(c - near.len());
        let one = beads.subrange(c - near.len(), c);
        let two = beads.subrange(c + 1, c + 1 + far.len());
        let last = beads.skip(c + 1 + far.len());
        assert(beads =~= first + one + seq![beads[c]] + two + last);
        lemma_beads_single(root, 0, root.ops.len() as int, none, frame, Some(w));
        assert(root.ops.subrange(0, root.ops.len() as int) =~= root.ops);
        lemma_pulled(left, before.consumed, v);
        lemma_pulled(right, after.consumed, v);
        assert(held_in(one, plan.consumed)) by {
            assert forall|k: int| 0 <= k < one.len() implies ((
            #[trigger] one[k]).stop matches Ahead::At(s) && plan.consumed.contains(s)) by {
                let j = near.len() - 1 - k;
                assert(one[k] == beads[c - 1 - j]);
                assert(one[k].stop == near[j]);
                let s = near[j]->At_0;
                let d = before.consumed.index_of(s);
                assert(before.consumed[d] == s);
                assert(plan.consumed[d] == s);
            }
        }
        assert(held_in(two, plan.consumed)) by {
            assert forall|k: int| 0 <= k < two.len() implies ((
            #[trigger] two[k]).stop matches Ahead::At(s) && plan.consumed.contains(s)) by {
                assert(two[k] == beads[c + 1 + k]);
                assert(two[k].stop == far[k]);
                let s = far[k]->At_0;
                let d = after.consumed.index_of(s);
                assert(after.consumed[d] == s);
                assert(plan.consumed[before.consumed.len() + d] == s);
            }
        }
        assert forall|j: int|
            0 <= j < beads.len() && ((#[trigger] beads[j]).stop matches Ahead::At(s)
                && all.contains(s)) implies c - near.len() <= j < c + 1 + far.len() by {
            lemma_inside_the_row(root, site, claimed, frame, w, c, j);
        }
        assert(clear_of(first, all)) by {
            assert forall|k: int| 0 <= k < first.len() implies ((
            #[trigger] first[k]).stop matches Ahead::At(s) ==> !all.contains(s)) by {
                assert(first[k] == beads[k]);
            }
        }
        assert(clear_of(last, all)) by {
            assert forall|k: int| 0 <= k < last.len() implies ((
            #[trigger] last[k]).stop matches Ahead::At(s) ==> !all.contains(s)) by {
                assert(last[k] == beads[c + 1 + far.len() + k]);
            }
        }
        lemma_row_steps(root, site, claimed, frame, w, c);
        let steps = on_qubit(
            flat(
                plan_body(root, plan).ops,
                through(frame_at(root, site.scope, frame), at_site(root, site).qubits),
            ),
            frame[w as int],
        );
        assert(cut_at(
            beads,
            site,
            plan.consumed,
            steps,
            first,
            one,
            beads[c],
            two,
            last,
        ));
    }
}

/// Among the beads of a wire, what a collector takes over is in the row next to it.
proof fn lemma_inside_the_row(
    root: CircuitModel,
    site: SiteModel,
    claimed: Set<SiteModel>,
    frame: Seq<usize>,
    w: usize,
    c: int,
    j: int,
)
    requires
        root.wf(),
        stands_at(root, site.scope, site.node),
        at_site(root, site).op.is_collector(),
        planned(root, site, claimed) is Ok,
        tells_apart(frame, root.num_qubits),
        w < root.num_qubits,
        ({
            let beads = strung(root.ops, Seq::empty(), frame, Some(w));
            &&& 0 <= c < beads.len()
            &&& beads[c].stop == Ahead::At(site)
            &&& 0 <= j < beads.len()
            &&& beads[j].stop matches Ahead::At(other)
            &&& planned(root, site, claimed)->Ok_0.consumed.push(site).contains(other)
        }),
    ensures
        ({
            let left = outlook(root, site, Direction::Left, claimed);
            let right = outlook(root, site, Direction::Right, claimed);
            let v = wire_at(root, site.scope, Some(w))->Some_0;
            let near = pulled(left, rounds(left, left.start())->Ok_0.consumed, v);
            let far = pulled(right, rounds(right, right.start())->Ok_0.consumed, v);
            c - near.len() <= j < c + 1 + far.len()
        }),
{
    let none = Seq::<usize>::empty();
    let beads = strung(root.ops, none, frame, Some(w));
    let plan = planned(root, site, claimed)->Ok_0;
    let all = plan.consumed.push(site);
    lemma_beads_single(root, 0, root.ops.len() as int, none, frame, Some(w));
    assert(root.ops.subrange(0, root.ops.len() as int) =~= root.ops);
    let d = lemma_collector_among_beads(root, site, claimed, frame, w, j);
    if c < d {
        assert(beads[c].stop != beads[d].stop);
    } else if d < c {
        assert(beads[d].stop != beads[c].stop);
    }
    let other = beads[j].stop->At_0;
    let left = outlook(root, site, Direction::Left, claimed);
    let right = outlook(root, site, Direction::Right, claimed);
    let before = rounds(left, left.start())->Ok_0;
    let after = rounds(right, right.start())->Ok_0;
    let v = wire_at(root, site.scope, Some(w))->Some_0;
    let near = pulled(left, before.consumed, v);
    let far = pulled(right, after.consumed, v);
    let at = if other == site {
        c
    } else {
        lemma_pulled(left, before.consumed, v);
        lemma_pulled(right, after.consumed, v);
        let k = all.index_of(other);
        assert(all[k] == other);
        if k < before.consumed.len() {
            assert(before.consumed[k] == other);
            let n = near.index_of(Ahead::At(other));
            assert(near.contains(Ahead::At(before.consumed[k])));
            assert(near[n] == Ahead::At(other));
            assert(beads[c - 1 - n].stop == near[n]);
            c - 1 - n
        } else {
            let e = k - before.consumed.len();
            assert(plan.consumed[k] == after.consumed[e]);
            assert(after.consumed[e] == other);
            let n = far.index_of(Ahead::At(other));
            assert(far.contains(Ahead::At(after.consumed[e])));
            assert(far[n] == Ahead::At(other));
            assert(beads[c + 1 + n].stop == far[n]);
            c + 1 + n
        }
    };
    assert(beads[at].stop == Ahead::At(other));
    if at < j {
        assert(beads[at].stop != beads[j].stop);
    } else if j < at {
        assert(beads[j].stop != beads[at].stop);
    }
}

/// What a collector is given does on a qubit what the row next to it did, come to rest; and the collector held nothing.
proof fn lemma_row_steps(
    root: CircuitModel,
    site: SiteModel,
    claimed: Set<SiteModel>,
    frame: Seq<usize>,
    w: usize,
    c: int,
)
    requires
        root.wf(),
        collectors_empty(root.ops),
        stands_at(root, site.scope, site.node),
        at_site(root, site).op.is_collector(),
        planned(root, site, claimed) is Ok,
        tells_apart(frame, root.num_qubits),
        w < root.num_qubits,
        0 <= c < strung(root.ops, Seq::empty(), frame, Some(w)).len(),
        strung(root.ops, Seq::empty(), frame, Some(w))[c].stop == Ahead::At(site),
    ensures
        ({
            let beads = strung(root.ops, Seq::empty(), frame, Some(w));
            let plan = planned(root, site, claimed)->Ok_0;
            let left = outlook(root, site, Direction::Left, claimed);
            let right = outlook(root, site, Direction::Right, claimed);
            let v = wire_at(root, site.scope, Some(w))->Some_0;
            let near = pulled(left, rounds(left, left.start())->Ok_0.consumed, v);
            let far = pulled(right, rounds(right, right.start())->Ok_0.consumed, v);
            let steps = on_qubit(
                flat(
                    plan_body(root, plan).ops,
                    through(frame_at(root, site.scope, frame), at_site(root, site).qubits),
                ),
                frame[w as int],
            );
            &&& beads[c].steps.len() == 0
            &&& all_at_rest(steps) == all_at_rest(
                joined(beads.subrange(c - near.len(), c)) + joined(
                    beads.subrange(c + 1, c + 1 + far.len()),
                ),
            )
        }),
{
    let none = Seq::<usize>::empty();
    let beads = strung(root.ops, none, frame, Some(w));
    let plan = planned(root, site, claimed)->Ok_0;
    let all = plan.consumed.push(site);
    assert(all[plan.consumed.len() as int] == site);
    assert(all.contains(site));
    let d = lemma_collector_among_beads(root, site, claimed, frame, w, c);
    lemma_beads_single(root, 0, root.ops.len() as int, none, frame, Some(w));
    assert(root.ops.subrange(0, root.ops.len() as int) =~= root.ops);
    if c < d {
        assert(beads[c].stop != beads[d].stop);
    } else if d < c {
        assert(beads[d].stop != beads[c].stop);
    }
    let left = outlook(root, site, Direction::Left, claimed);
    let right = outlook(root, site, Direction::Right, claimed);
    let before = rounds(left, left.start())->Ok_0;
    let after = rounds(right, right.start())->Ok_0;
    let v = wire_at(root, site.scope, Some(w))->Some_0;
    let down = frame_at(root, site.scope, frame);
    let q = frame[w as int];
    let near = pulled(left, before.consumed, v);
    let far = pulled(right, after.consumed, v);
    let one = beads.subrange(c - near.len(), c);
    let two = beads.subrange(c + 1, c + 1 + far.len());
    lemma_walk_takes_each_once(left);
    lemma_walk_takes_each_once(right);
    lemma_planned(root, site, claimed);
    lemma_outlook(left);
    let inst = at_site(root, site);
    // The collector held nothing.
    lemma_empty_at(root, site.scope, site.node, down);
    assert(none + site.scope =~= site.scope);
    lemma_bead_of_site(root, none, site.scope, site.node, frame, Some(w));
    let bare = Bead { stop: Ahead::At(site), steps: on_qubit(Seq::empty(), q) };
    assert(beads.contains(bare));
    let e = beads.index_of(bare);
    assert(beads[e] == bare);
    if c < e {
        assert(beads[c].stop != beads[e].stop);
    } else if e < c {
        assert(beads[e].stop != beads[c].stop);
    }
    // What it is given.
    lemma_body_steps(root, inst.qubits, inst.clbits.len(), plan.content, down);
    let nearer = absorbed_steps(root, before.content, down);
    let farther = absorbed_steps(root, after.content, down);
    assert(absorbed_steps(root, plan.content, down) =~= nearer.reverse() + farther);
    lemma_on_qubit_add(nearer.reverse(), farther, q);
    lemma_on_qubit_turned(nearer, q);
    lemma_walk_line(left, before.content, before.consumed, frame, v);
    lemma_walk_line(right, after.content, after.consumed, frame, v);
    // What the row did.
    lemma_pulled(left, before.consumed, v);
    lemma_pulled(right, after.consumed, v);
    assert forall|k: int| 0 <= k < one.len() implies beads.contains(#[trigger] one[k]) && (
    one[k].stop matches Ahead::At(s) && before.consumed.contains(s) && left.wires(s).contains(v))
        && one[k].stop == near[near.len() - 1 - k] by {
        let j = near.len() - 1 - k;
        assert(one[k] == beads[c - 1 - j]);
        assert(beads[c - 1 - j].stop == near[j]);
    }
    assert forall|k: int| 0 <= k < two.len() implies beads.contains(#[trigger] two[k]) && (
    two[k].stop matches Ahead::At(s) && after.consumed.contains(s) && right.wires(s).contains(v))
        && two[k].stop == far[k] by {
        assert(two[k] == beads[c + 1 + k]);
        assert(beads[c + 1 + k].stop == far[k]);
    }
    lemma_taken_beads(left, before.content, before.consumed, beads, one, frame, w, v);
    lemma_taken_beads(right, after.content, after.consumed, beads, two, frame, w, v);
    let first = rested(root, near, frame);
    let second = rested(root, far, frame);
    assert(all_at_rest(first.reverse() + second) =~= all_at_rest(first).reverse() + all_at_rest(
        second,
    ));
    assert(all_at_rest(joined(one)) =~= first.reverse());
    assert(all_at_rest(joined(two)) =~= second);
    assert(all_at_rest(joined(one) + joined(two)) =~= all_at_rest(joined(one)) + all_at_rest(
        joined(two),
    ));
}

/// Taking instructions out strikes their beads.
proof fn lemma_cleared_beads(
    base: CircuitModel,
    sites: Seq<SiteModel>,
    frame: Seq<usize>,
    wire: Option<usize>,
)
    requires
        base.wf(),
        sites.no_duplicates(),
        forall|k: int|
            0 <= k < sites.len() ==> stands_at(base, (#[trigger] sites[k]).scope, sites[k].node),
    ensures
        strung(cleared(base, sites).ops, Seq::empty(), frame, wire) == struck(
            strung(base.ops, Seq::empty(), frame, wire),
            sites,
        ),
    decreases sites.len(),
{
    if sites.len() > 0 {
        let front = sites.drop_last();
        let last = sites.len() - 1;
        let site = sites[last];
        assert forall|k: int| 0 <= k < front.len() implies stands_at(
            base,
            (#[trigger] front[k]).scope,
            front[k].node,
        ) by {
            assert(sites[k] == front[k]);
        }
        assert(front.no_duplicates()) by {
            assert forall|i: int, j: int|
                0 <= i < front.len() && 0 <= j < front.len() && i != j implies front[i] != front[j] by {
                assert(sites[i] != sites[j]);
            }
        }
        assert(!front.contains(site)) by {
            if front.contains(site) {
                let c = front.index_of(site);
                assert(front[c] == site);
                assert(sites[c] != sites[last]);
            }
        }
        lemma_cleared_beads(base, front, frame, wire);
        lemma_cleared(base, front, site);
        lemma_beads_of_removal(cleared(base, front), site, frame, wire);
    }
}

/// A circuit once some plans were carried out.
spec fn carried_out(root: CircuitModel, plans: Seq<PlanModel>) -> CircuitModel {
    cleared(rewritten(root, plans), all_consumed(plans))
}

/// Whether plans can be carried out, and take nothing over twice.
spec fn plans_ready(root: CircuitModel, plans: Seq<PlanModel>, frame: Seq<usize>) -> bool {
    &&& plans_fit(root, plans, frame)
    &&& all_consumed(plans).no_duplicates()
    &&& forall|c: int|
        0 <= c < all_consumed(plans).len() ==> {
            let site = #[trigger] all_consumed(plans)[c];
            stands_at(root, site.scope, site.node) && !at_site(root, site).op.is_box()
        }
}

proof fn lemma_plans_ready_front(root: CircuitModel, plans: Seq<PlanModel>, frame: Seq<usize>)
    requires
        plans_ready(root, plans, frame),
        plans.len() > 0,
    ensures
        plans_ready(root, plans.drop_last(), frame),
        all_consumed(plans) == all_consumed(plans.drop_last()) + plans.last().consumed,
        forall|c: int|
            0 <= c < all_consumed(plans.drop_last()).len() ==> !plans.last().consumed.contains(
                #[trigger] all_consumed(plans.drop_last())[c],
            ),
{
    let front = plans.drop_last();
    let all = all_consumed(plans);
    let few = all_consumed(front);
    lemma_plans_fit_front(root, plans, frame);
    assert forall|i: int, j: int| 0 <= i < few.len() && 0 <= j < few.len() && i != j implies few[i]
        != few[j] by {
        assert(all[i] == few[i] && all[j] == few[j]);
    }
    assert forall|c: int| 0 <= c < few.len() implies ({
        let site = #[trigger] few[c];
        stands_at(root, site.scope, site.node) && !at_site(root, site).op.is_box()
    }) && !plans.last().consumed.contains(few[c]) by {
        assert(all[c] == few[c]);
        if plans.last().consumed.contains(few[c]) {
            let k = plans.last().consumed.index_of(few[c]);
            assert(all[few.len() + k] == few[c]);
        }
    }
}

/// What is taken over is no collector that takes over.
proof fn lemma_consumed_are_no_collectors(
    root: CircuitModel,
    plans: Seq<PlanModel>,
    frame: Seq<usize>,
    site: SiteModel,
)
    requires
        plans_ready(root, plans, frame),
        at_site(root, site).op.is_collector(),
    ensures
        !all_consumed(plans).contains(site),
{
    let all = all_consumed(plans);
    if all.contains(site) {
        let c = all.index_of(site);
        assert(all[c] == site);
    }
}

/// Carrying out one more plan gives its collector its body and strikes what it takes over.
proof fn lemma_carried_beads(
    root: CircuitModel,
    plans: Seq<PlanModel>,
    frame: Seq<usize>,
    w: usize,
)
    requires
        root.wf(),
        tells_apart(frame, root.num_qubits),
        w < root.num_qubits,
        plans_ready(root, plans, frame),
        plans.len() > 0,
    ensures
        ({
            let plan = plans.last();
            let steps = on_qubit(
                flat(
                    plan_body(root, plan).ops,
                    through(
                        frame_at(root, plan.site.scope, frame),
                        at_site(root, plan.site).qubits,
                    ),
                ),
                frame[w as int],
            );
            strung(carried_out(root, plans).ops, Seq::empty(), frame, Some(w)) == struck(
                patched(
                    strung(
                        carried_out(root, plans.drop_last()).ops,
                        Seq::empty(),
                        frame,
                        Some(w),
                    ),
                    plan.site,
                    seq![Bead { stop: Ahead::At(plan.site), steps }],
                ),
                plan.consumed,
            )
        }),
{
    let none = Seq::<usize>::empty();
    let front = plans.drop_last();
    let plan = plans.last();
    let site = plan.site;
    assert(plans[plans.len() - 1] == plan);
    assert(plan_proper(root, plans[plans.len() - 1], Set::empty()));
    lemma_plans_ready_front(root, plans, frame);
    lemma_plans_fit_front(root, plans, frame);
    lemma_rewritten_frame(root, front, site, frame);
    let before = rewritten(root, front);
    let after = rewritten(root, plans);
    let body = plan_body(root, plan);
    let op = collect_box(plan.collect);
    lemma_stands_at_exists(root, site.scope, site.node);
    lemma_stands_at_exists(before, site.scope, site.node);
    let scope = scope_of(before, site.scope)->Ok_0;
    assert(scope.get(site.node) == at_site(root, site));
    assert(op.collect() == Some(plan.collect));
    lemma_beads_of_refill(before, site, op, body, frame, Some(w));
    let steps = on_qubit(
        flat(
            body.ops,
            through(frame_at(root, site.scope, frame), at_site(root, site).qubits),
        ),
        frame[w as int],
    );
    let put = seq![Bead { stop: Ahead::At(site), steps }];
    let beads = strung(before.ops, none, frame, Some(w));
    assert(strung(after.ops, none, frame, Some(w)) == patched(beads, site, put));
    let few = all_consumed(front);
    let all = all_consumed(plans);
    assert forall|k: int| 0 <= k < few.len() implies stands_at(
        before,
        (#[trigger] few[k]).scope,
        few[k].node,
    ) by {
        assert forall|p: int| 0 <= p < front.len() implies (#[trigger] front[p]).site != few[k] by {
            assert(plan_proper(root, front[p], Set::empty()));
        }
        lemma_rewritten_frame(root, front, few[k], frame);
    }
    assert forall|k: int| 0 <= k < all.len() implies stands_at(
        after,
        (#[trigger] all[k]).scope,
        all[k].node,
    ) by {
        assert forall|p: int| 0 <= p < plans.len() implies (#[trigger] plans[p]).site != all[k] by {
            assert(plan_proper(root, plans[p], Set::empty()));
        }
        lemma_rewritten_frame(root, plans, all[k], frame);
    }
    lemma_one_rewrite(root, before, plan);
    lemma_rewrite(before, site.scope, site.node, with_op(scope, site.node, op, body));
    lemma_cleared_beads(before, few, frame, Some(w));
    lemma_cleared_beads(after, all, frame, Some(w));
    lemma_struck_more(patched(beads, site, put), few, plan.consumed);
    lemma_consumed_are_no_collectors(root, front, frame, site);
    lemma_strike_commutes(beads, site, put, few);
}

/// Carrying out plans leaves what another collector takes over next to it.
proof fn lemma_carried_stays_gathered(
    root: CircuitModel,
    plans: Seq<PlanModel>,
    frame: Seq<usize>,
    w: usize,
    site: SiteModel,
    consumed: Seq<SiteModel>,
    steps: Seq<Step>,
)
    requires
        root.wf(),
        tells_apart(frame, root.num_qubits),
        w < root.num_qubits,
        plans_ready(root, plans, frame),
        gathered(strung(root.ops, Seq::empty(), frame, Some(w)), site, consumed, steps),
        forall|p: int|
            0 <= p < plans.len() ==> !consumed.push(site).contains((#[trigger] plans[p]).site),
        forall|c: int|
            0 <= c < all_consumed(plans).len() ==> !consumed.push(site).contains(
                #[trigger] all_consumed(plans)[c],
            ),
    ensures
        gathered(
            strung(carried_out(root, plans).ops, Seq::empty(), frame, Some(w)),
            site,
            consumed,
            steps,
        ),
    decreases plans.len(),
{
    if plans.len() > 0 {
        let none = Seq::<usize>::empty();
        let front = plans.drop_last();
        let plan = plans.last();
        let few = all_consumed(front);
        let all = all_consumed(plans);
        lemma_plans_ready_front(root, plans, frame);
        assert forall|p: int| 0 <= p < front.len() implies !consumed.push(site).contains(
            (#[trigger] front[p]).site,
        ) by {
            assert(plans[p] == front[p]);
        }
        assert forall|c: int| 0 <= c < few.len() implies !consumed.push(site).contains(
            #[trigger] few[c],
        ) by {
            assert(all[c] == few[c]);
        }
        lemma_carried_stays_gathered(root, front, frame, w, site, consumed, steps);
        lemma_carried_beads(root, plans, frame, w);
        let beads = strung(carried_out(root, front).ops, none, frame, Some(w));
        let given = on_qubit(
            flat(
                plan_body(root, plan).ops,
                through(frame_at(root, plan.site.scope, frame), at_site(root, plan.site).qubits),
            ),
            frame[w as int],
        );
        let put = seq![Bead { stop: Ahead::At(plan.site), steps: given }];
        assert(plans[plans.len() - 1] == plan);
        assert(!consumed.push(site).contains(plans[plans.len() - 1].site));
        lemma_stays_gathered(beads, site, consumed, steps, plan.site, put);
        assert forall|k: int| 0 <= k < plan.consumed.len() implies !consumed.push(site).contains(
            #[trigger] plan.consumed[k],
        ) by {
            assert(all[few.len() + k] == plan.consumed[k]);
        }
        lemma_struck_stays_gathered(
            patched(beads, plan.site, put),
            site,
            consumed,
            steps,
            plan.consumed,
        );
    } else {
        assert(all_consumed(plans) =~= Seq::<SiteModel>::empty());
    }
}

/// Carrying out plans changes nothing of what is done on a wire, once what was taken over has come to rest.
proof fn lemma_carried_order(
    root: CircuitModel,
    plans: Seq<PlanModel>,
    frame: Seq<usize>,
    w: usize,
)
    requires
        root.wf(),
        tells_apart(frame, root.num_qubits),
        w < root.num_qubits,
        plans_ready(root, plans, frame),
        forall|p: int|
            0 <= p < plans.len() ==> gathered(
                strung(root.ops, Seq::empty(), frame, Some(w)),
                (#[trigger] plans[p]).site,
                plans[p].consumed,
                on_qubit(
                    flat(
                        plan_body(root, plans[p]).ops,
                        through(
                            frame_at(root, plans[p].site.scope, frame),
                            at_site(root, plans[p].site).qubits,
                        ),
                    ),
                    frame[w as int],
                ),
            ),
    ensures
        all_at_rest(joined(strung(carried_out(root, plans).ops, Seq::empty(), frame, Some(w))))
            == all_at_rest(joined(strung(root.ops, Seq::empty(), frame, Some(w)))),
    decreases plans.len(),
{
    if plans.len() > 0 {
        let none = Seq::<usize>::empty();
        let front = plans.drop_last();
        let plan = plans.last();
        let last = plans.len() - 1;
        assert(plans[last] == plan);
        lemma_plans_ready_front(root, plans, frame);
        lemma_plans_fit_front(root, plans, frame);
        assert forall|p: int| 0 <= p < front.len() implies gathered(
            strung(root.ops, Seq::empty(), frame, Some(w)),
            (#[trigger] front[p]).site,
            front[p].consumed,
            on_qubit(
                flat(
                    plan_body(root, front[p]).ops,
                    through(
                        frame_at(root, front[p].site.scope, frame),
                        at_site(root, front[p].site).qubits,
                    ),
                ),
                frame[w as int],
            ),
        ) by {
            assert(plans[p] == front[p]);
        }
        lemma_carried_order(root, front, frame, w);
        let steps = on_qubit(
            flat(
                plan_body(root, plan).ops,
                through(frame_at(root, plan.site.scope, frame), at_site(root, plan.site).qubits),
            ),
            frame[w as int],
        );
        assert(gathered(
            strung(root.ops, none, frame, Some(w)),
            plans[last].site,
            plan.consumed,
            steps,
        ));
        assert(plan_proper(root, plans[last], Set::empty()));
        let all = plan.consumed.push(plan.site);
        assert forall|p: int| 0 <= p < front.len() implies !all.contains((#[trigger] front[p]).site) by {
            assert(plan_proper(root, front[p], Set::empty()));
            if all.contains(front[p].site) {
                let k = all.index_of(front[p].site);
                assert(all[k] == front[p].site);
                if k < plan.consumed.len() {
                    assert(plan.consumed[k] == front[p].site);
                }
            }
        }
        let few = all_consumed(front);
        assert forall|c: int| 0 <= c < few.len() implies !all.contains(#[trigger] few[c]) by {
            assert(!at_site(root, few[c]).op.is_box());
            if all.contains(few[c]) {
                let k = all.index_of(few[c]);
                assert(all[k] == few[c]);
                if k < plan.consumed.len() {
                    assert(plan.consumed[k] == few[c]);
                    assert(plan.consumed.contains(few[c]));
                }
            }
        }
        lemma_carried_stays_gathered(root, front, frame, w, plan.site, plan.consumed, steps);
        assert(!plan.consumed.contains(plan.site)) by {
            if plan.consumed.contains(plan.site) {
                let k = plan.consumed.index_of(plan.site);
                assert(plan.consumed[k] == plan.site);
            }
        }
        lemma_carried_beads(root, plans, frame, w);
        lemma_gathering_keeps_order(
            strung(carried_out(root, front).ops, none, frame, Some(w)),
            plan.site,
            plan.consumed,
            steps,
        );
    }
}

/// Every plan made finds what it takes over next to its collector.
proof fn lemma_plans_gathered(
    root: CircuitModel,
    sites: Seq<SiteModel>,
    frame: Seq<usize>,
    w: usize,
)
    requires
        root.wf(),
        collectors_empty(root.ops),
        tells_apart(frame, root.num_qubits),
        w < root.num_qubits,
        forall|k: int|
            0 <= k < sites.len() ==> stands_at(root, (#[trigger] sites[k]).scope, sites[k].node)
                && at_site(root, sites[k]).op.is_collector(),
        plans_for(root, sites) is Ok,
    ensures
        forall|p: int|
            0 <= p < plans_for(root, sites)->Ok_0.len() ==> gathered(
                strung(root.ops, Seq::empty(), frame, Some(w)),
                (#[trigger] plans_for(root, sites)->Ok_0[p]).site,
                plans_for(root, sites)->Ok_0[p].consumed,
                on_qubit(
                    flat(
                        plan_body(root, plans_for(root, sites)->Ok_0[p]).ops,
                        through(
                            frame_at(root, plans_for(root, sites)->Ok_0[p].site.scope, frame),
                            at_site(root, plans_for(root, sites)->Ok_0[p].site).qubits,
                        ),
                    ),
                    frame[w as int],
                ),
            ),
    decreases sites.len(),
{
    if sites.len() > 0 {
        let front = sites.drop_last();
        let last = sites.len() - 1;
        assert forall|k: int| 0 <= k < front.len() implies stands_at(
            root,
            (#[trigger] front[k]).scope,
            front[k].node,
        ) && at_site(root, front[k]).op.is_collector() by {
            assert(sites[k] == front[k]);
        }
        lemma_plans_gathered(root, front, frame, w);
        let earlier = plans_for(root, front)->Ok_0;
        assert(sites[last] == sites.last());
        lemma_plan_gathered(root, sites[last], claimed_by(earlier), frame, w);
        let plan = planned(root, sites[last], claimed_by(earlier))->Ok_0;
        let plans = plans_for(root, sites)->Ok_0;
        assert(plans == earlier.push(plan));
        assert forall|p: int| 0 <= p < plans.len() implies gathered(
            strung(root.ops, Seq::empty(), frame, Some(w)),
            (#[trigger] plans[p]).site,
            plans[p].consumed,
            on_qubit(
                flat(
                    plan_body(root, plans[p]).ops,
                    through(
                        frame_at(root, plans[p].site.scope, frame),
                        at_site(root, plans[p].site).qubits,
                    ),
                ),
                frame[w as int],
            ),
        ) by {
            if p < earlier.len() {
                assert(plans[p] == earlier[p]);
            }
        }
    }
}

/// Absorbing keeps what is done on every qubit, and its order: read flat, with boxes and collect boxes dissolved, the
/// steps on a qubit are the same steps in the same order before and after, but for the emissions taken over, which
/// have come to rest. Collectors take things over in place of what they hold, so they hold nothing yet.
pub proof fn lemma_absorbing_keeps_the_order_on_every_qubit(root: CircuitModel, qubit: usize)
    requires
        root.wf(),
        root.num_qubits <= usize::MAX,
        run_size(root.ops) <= usize::MAX,
        collectors_empty(root.ops),
        absorption(root) is Ok,
    ensures
        on_qubit(all_at_rest(steps_of(absorption(root)->Ok_0)), qubit) == on_qubit(
            all_at_rest(steps_of(root)),
            qubit,
        ),
{
    let frame = own_qubits(root.num_qubits);
    let none = Seq::<usize>::empty();
    lemma_own_apart(root.num_qubits);
    lemma_swept(root, ScopeOrder::Innermost);
    let sites = swept(root, none, ScopeOrder::Innermost)->Ok_0;
    let plans = plans_for(root, sites)->Ok_0;
    lemma_plans_take_each_once(root, sites);
    lemma_plans_fit(root, sites, frame);
    lemma_rewritten_tally(root, plans, frame);
    let base = rewritten(root, plans);
    let gone = all_consumed(plans);
    assert forall|c: int| 0 <= c < gone.len() implies stands_at(
        base,
        (#[trigger] gone[c]).scope,
        gone[c].node,
    ) && site_instruction(base, gone[c]) == site_instruction(root, gone[c]) && frame_at(
        base,
        gone[c].scope,
        frame,
    ) == frame_at(root, gone[c].scope, frame) by {
        assert forall|p: int| 0 <= p < plans.len() implies (#[trigger] plans[p]).site != gone[c] by {
            assert(at_site(root, plans[p].site).op.is_collector());
        }
        lemma_rewritten_frame(root, plans, gone[c], frame);
    }
    lemma_cleared_tally(root, base, gone, frame);
    let after = absorption(root)->Ok_0;
    lemma_rest_on_qubit(steps_of(root), qubit);
    lemma_rest_on_qubit(steps_of(after), qubit);
    if qubit < root.num_qubits {
        lemma_plans_gathered(root, sites, frame, qubit);
        lemma_carried_order(root, plans, frame, qubit);
        lemma_beads_are_the_run(
            root.ops,
            none,
            frame,
            Some(qubit),
            root.num_qubits,
            root.num_clbits,
        );
        lemma_beads_are_the_run(
            after.ops,
            none,
            frame,
            Some(qubit),
            after.num_qubits,
            after.num_clbits,
        );
    } else {
        lemma_nothing_off_the_circuit(root, qubit);
        lemma_nothing_off_the_circuit(after, qubit);
    }
}

} // verus!
