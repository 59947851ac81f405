//! Merge collectors: emission circuit to emission circuit, in place.
//!
//! Two ways for two collectors to become one, and they need different machinery.
//!
//! **Siblings, in one scope.** Adjacent boxes that share a synthesizer come to share a *middle* collector, so
//! N boxes in a row need N+1 collector layers rather than 2N. One contraction per group, over the union of
//! its members' wires, and positioned by what its members stand between. Two rules govern what may fuse, both
//! per qubit: a candidate must overlap a group's `span`, and every one of its qubits must still be at that
//! group's `frontier`. Each scope is walked with its own state.
//!
//! **A collector leaving its box**, folded into the one just outside it: one collector layer fewer per
//! nesting level. This is *not* a contraction: a nested collector covers a subset of its box's qubits, which
//! are a subset of the enclosing collector's, so nothing is ever widened. It is a body transfer plus a
//! deletion, and it runs to a fixed point before the sibling sweep, since one collector escaping exposes the
//! next level down.
//!
//! An escape refuses on hazards, not on which pass has run. Before absorption every collector body is empty,
//! so an escape is purely structural then.

use vstd::prelude::*;

use crate::annotated_circuit::SynthesizerType;
use crate::beads::joined;
use crate::beads::lemma_beads_are_the_instruction;
use crate::beads::lemma_nothing_off_the_circuit;
use crate::beads::lemma_own_apart;
use crate::beads::lemma_through_apart;
use crate::beads::run_on;
use crate::beads::strung_of;
use crate::beads::tells_apart;
use crate::beads::Bead;
use crate::circuit::blocks_size;
use crate::circuit::lemma_blocks_size_one;
use crate::circuit::Circuit;
use crate::circuit::CircuitModel;
use crate::circuit::Instruction;
use crate::circuit::InstructionModel;
use crate::circuit::run_size;
use crate::circuit::wires_below;
use crate::collections::IndexSet;
use crate::emission_circuit::Collect;
use crate::emission_circuit::CollectModel;
use crate::emission_circuit::CollectPart;
use crate::emission_circuit_navigation::collect_annotation;
use crate::emission_circuit_navigation::collect_box;
use crate::emission_circuit_navigation::collect_op;
use crate::emission_circuit_navigation::is_box;
use crate::emission_circuit_navigation::is_collector;
use crate::emission_circuit_navigation::SiteModel;
use crate::emission_circuit_navigation::ScopeOrder;
use crate::emission_circuit_navigation::lemma_get;
use crate::emission_circuit_navigation::nested_collectors;
use crate::emission_circuit_navigation::new_dag_body;
use crate::emission_circuit_navigation::own_collectors;
use crate::emission_circuit_navigation::swept;
use crate::emission_circuit_navigation::through;
use crate::emission_circuit_navigation::without;
use crate::error::SamplexError;
use crate::flat::flat;
use crate::flat::flat_of;
use crate::flat::lemma_flat_add;
use crate::flat::lemma_flat_one;
use crate::flat::lemma_flat_push;
use crate::flat::lemma_on_qubit_add;
use crate::flat::on_qubit;
use crate::flat::own_qubits;
use crate::flat::steps_of;
use crate::flat::Step;
use crate::overlap::chained;
use crate::overlap::coarsened;
use crate::overlap::coarsened_parts;
use crate::overlap::groups_below;
use crate::overlap::is_chain;
use crate::overlap::lemma_coarsening_is_a_partition;
use crate::overlap::lemma_parts_are_chains;
use crate::overlap::share_a_part;
use crate::overlap::together;
use crate::parameters::ParamModel;
use crate::partition::Partition;
use crate::partition::clone_list;
use crate::partition::groups_of;
use crate::partition::is_partition;
use crate::partition::nested;
use crate::partition::total;

use super::absorb_emissions::lemma_places;
use super::absorb_emissions::on_frame;
use super::absorb_emissions::places_in;
use super::absorb_emissions::remap;
use super::escape_collectors::Outcome;
use super::escape_collectors::append_contribution;
use super::escape_collectors::contributed;
use super::escape_collectors::equipped;
use super::escape_collectors::equipped_at;
use super::escape_collectors::escape_all;
use super::escape_collectors::housed;
use super::escape_collectors::lemma_contributed;
use super::escape_collectors::lemma_contributed_holds_steps;
use super::escape_collectors::lemma_escapes_are_not_refused;
use super::escape_collectors::lemma_escapes_keep_the_order_on_every_qubit;
use super::escape_collectors::lemma_escapes_keep_valid;
use super::escape_collectors::lemma_settled_is_a_fixed_point;
use super::escape_collectors::lemma_escapes_keep_the_outline;
use super::escape_collectors::lemma_flat_of_contributed;
use super::escape_collectors::lemma_nothing_escapes;
use super::escape_collectors::lemma_ops_within;
use super::escape_collectors::lemma_size_of_removal;
use super::escape_collectors::lists;
use super::escape_collectors::open_body;
use super::escape_collectors::outline_kept;
use super::escape_collectors::same_outline;
use super::escape_collectors::settled;
use super::lower::holds_steps;
use super::validity::lemma_valid_is_equipped;
use super::validity::valid;
use super::validity::valid_at;

verus! {

// --- Siblings: what fuses ----------------------------------------------------------------------

/// Collectors that will fuse into one, and the state deciding what else may join them.
#[verifier::ext_equal]
pub struct GroupModel {
    /// The collectors to contract, in the order their contributions compose. A group of one is left alone.
    pub members: Seq<usize>,
    /// Qubits on which nothing has happened since this group's position, so a later collector on them can
    /// still commute back here and fuse.
    pub frontier: Set<usize>,
    /// Every qubit this group covers: the width the contracted box will have.
    pub span: Set<usize>,
    /// The members' subsystems, as qubits of the scope, in the order they were contributed.
    pub subsystems: Seq<Seq<usize>>,
    /// The descriptors of the first member.
    pub parts: Seq<CollectPart>,
}

impl GroupModel {
    /// Whether a collector on some qubits may fuse into the group: the group synthesizes the same way, they
    /// share a qubit, and every one of its qubits is still at the frontier.
    pub open spec fn admits(self, qubits: Seq<usize>, synthesizer: SynthesizerType) -> bool {
        &&& forall|p: int|
            0 <= p < self.parts.len() ==> (#[trigger] self.parts[p]).synthesizer == synthesizer
        &&& exists|k: int| 0 <= k < qubits.len() && self.span.contains(#[trigger] qubits[k])
        &&& forall|k: int| 0 <= k < qubits.len() ==> self.frontier.contains(#[trigger] qubits[k])
    }

    /// The group with one more collector's contribution.
    pub open spec fn joined(self, inst: InstructionModel, collect: CollectModel) -> GroupModel {
        GroupModel {
            members: self.members.push(inst.node),
            span: self.span.union(inst.qubits.to_set()),
            subsystems: self.subsystems + groups_of(collect.partition, inst.qubits),
            ..self
        }
    }

    /// The group with qubits off its frontier.
    pub open spec fn without(self, qubits: Seq<usize>) -> GroupModel {
        GroupModel { frontier: self.frontier.difference(qubits.to_set()), ..self }
    }
}

/// A group of one collector. Its frontier is every qubit of the scope, because a merge may widen onto qubits no
/// member covered.
pub open spec fn opened(num_qubits: nat, inst: InstructionModel, collect: CollectModel) -> GroupModel {
    GroupModel {
        members: seq![inst.node],
        frontier: Set::new(|qubit: usize| qubit < num_qubits),
        span: inst.qubits.to_set(),
        subsystems: groups_of(collect.partition, inst.qubits),
        parts: collect.parts,
    }
}

/// The first group from a position on that a collector may fuse into, or how many groups there are if none.
pub open spec fn first_home(
    groups: Seq<GroupModel>,
    qubits: Seq<usize>,
    synthesizer: SynthesizerType,
    from: int,
) -> int
    decreases groups.len() - from,
{
    if from >= groups.len() || groups[from].admits(qubits, synthesizer) {
        from
    } else {
        first_home(groups, qubits, synthesizer, from + 1)
    }
}

/// Groups with qubits off every frontier.
pub open spec fn released(groups: Seq<GroupModel>, qubits: Seq<usize>) -> Seq<GroupModel> {
    groups.map_values(|group: GroupModel| group.without(qubits))
}

/// The groups the collectors of a run fall into, in the order they were opened. A collector joins the first
/// group that admits it and takes nothing off any frontier; anything else, a collector with a position of its
/// own too, takes its qubits off every frontier.
pub open spec fn grouped(num_qubits: nat, ops: Seq<InstructionModel>) -> Seq<GroupModel>
    decreases ops.len(),
{
    if ops.len() == 0 {
        Seq::empty()
    } else {
        let groups = grouped(num_qubits, ops.drop_last());
        let inst = ops.last();
        match inst.op.collect() {
            None => released(groups, inst.qubits),
            Some(collect) => {
                let home = first_home(groups, inst.qubits, collect.parts[0].synthesizer, 0);
                if home < groups.len() {
                    groups.update(home, groups[home].joined(inst, collect))
                } else {
                    released(groups, inst.qubits).push(opened(num_qubits, inst, collect))
                }
            },
        }
    }
}

// --- Siblings: what they fuse into ---------------------------------------------------------------

/// The numbers of a set below a limit, ascending.
pub open spec fn ascending(set: Set<usize>, limit: nat) -> Seq<usize>
    decreases limit,
{
    if limit == 0 {
        Seq::empty()
    } else {
        let before = ascending(set, (limit - 1) as nat);
        if set.contains((limit - 1) as usize) {
            before.push((limit - 1) as usize)
        } else {
            before
        }
    }
}

/// What an instruction holds, if it holds exactly one circuit.
pub open spec fn single_body(inst: InstructionModel) -> Option<CircuitModel> {
    if inst.blocks.len() == 1 {
        Some(inst.blocks[0])
    } else {
        None
    }
}

/// The members' bodies one after another, moved from each member's frame to the merged one.
pub open spec fn merged_body(
    circuit: CircuitModel,
    members: Seq<usize>,
    frame: Seq<usize>,
    num_clbits: nat,
) -> CircuitModel
    decreases members.len(),
{
    if members.len() == 0 {
        CircuitModel::bare(frame.len(), num_clbits)
    } else {
        let inst = circuit.get(members.last());
        contributed(
            merged_body(circuit, members.drop_last(), frame, num_clbits),
            single_body(inst),
            inst.qubits,
            frame,
        )
    }
}

/// The classical wires of some instructions.
pub open spec fn clbits_of(circuit: CircuitModel, members: Seq<usize>) -> Set<usize>
    decreases members.len(),
{
    if members.len() == 0 {
        Set::empty()
    } else {
        clbits_of(circuit, members.drop_last()).union(
            circuit.get(members.last()).clbits.to_set(),
        )
    }
}

/// The merged collector's descriptors: the members' subsystems, those that overlap joined, and the one way they
/// all synthesize for each part.
pub open spec fn merged_collect(group: GroupModel, frame: Seq<usize>) -> CollectModel {
    let partition = coarsened_parts(
        frame.len(),
        group.subsystems.map_values(|subsystem: Seq<usize>| places_in(frame, subsystem)),
    );
    CollectModel {
        partition,
        parts: Seq::new(
            partition.len(),
            |p: int| CollectPart { synthesizer: group.parts[0].synthesizer },
        ),
    }
}

/// The collector a group fuses into.
pub open spec fn fused(circuit: CircuitModel, group: GroupModel) -> InstructionModel {
    let frame = ascending(group.span, circuit.num_qubits);
    let clbits = ascending(clbits_of(circuit, group.members), circuit.num_clbits);
    InstructionModel {
        node: group.members[0],
        op: collect_box(merged_collect(group, frame)),
        qubits: frame,
        clbits,
        params: Seq::empty(),
        blocks: seq![merged_body(circuit, group.members, frame, clbits.len())],
    }
}

// --- Siblings: where they fuse -------------------------------------------------------------------

/// A run seen from a group in it: what does not depend on the group, what does, the wires the group and what
/// depends on it are on, the wires only what depends on it is on, and whether the group depends on that in
/// turn.
#[verifier::ext_equal]
pub struct Parting {
    pub ahead: Seq<InstructionModel>,
    pub behind: Seq<InstructionModel>,
    pub held: (Set<usize>, Set<usize>),
    pub passed: (Set<usize>, Set<usize>),
    pub tangled: bool,
}

/// Whether an instruction is on one of some wires.
pub open spec fn on_any(inst: InstructionModel, wires: (Set<usize>, Set<usize>)) -> bool {
    ||| exists|k: int| 0 <= k < inst.qubits.len() && wires.0.contains(#[trigger] inst.qubits[k])
    ||| exists|k: int| 0 <= k < inst.clbits.len() && wires.1.contains(#[trigger] inst.clbits[k])
}

/// Some wires, and those of an instruction.
pub open spec fn with_wires(wires: (Set<usize>, Set<usize>), inst: InstructionModel) -> (
    Set<usize>,
    Set<usize>,
) {
    (wires.0.union(inst.qubits.to_set()), wires.1.union(inst.clbits.to_set()))
}

/// A run seen from a group in it.
pub open spec fn parted(ops: Seq<InstructionModel>, members: Seq<usize>) -> Parting
    decreases ops.len(),
{
    if ops.len() == 0 {
        Parting {
            ahead: Seq::empty(),
            behind: Seq::empty(),
            held: (Set::empty(), Set::empty()),
            passed: (Set::empty(), Set::empty()),
            tangled: false,
        }
    } else {
        let before = parted(ops.drop_last(), members);
        let inst = ops.last();
        if members.contains(inst.node) {
            Parting {
                held: with_wires(before.held, inst),
                tangled: before.tangled || on_any(inst, before.passed),
                ..before
            }
        } else if on_any(inst, before.held) {
            Parting {
                behind: before.behind.push(inst),
                held: with_wires(before.held, inst),
                passed: with_wires(before.passed, inst),
                ..before
            }
        } else {
            Parting { ahead: before.ahead.push(inst), ..before }
        }
    }
}

/// How much of a run it takes to hold everything of a group that is in it.
pub open spec fn reach(ops: Seq<InstructionModel>, members: Seq<usize>) -> nat
    decreases ops.len(),
{
    if ops.len() == 0 || members.contains(ops.last().node) {
        ops.len()
    } else {
        reach(ops.drop_last(), members)
    }
}

/// A circuit with a group contracted into one collector, which stands behind all that does not depend on the
/// group and ahead of all that does. There is none if something would have to stand on both sides.
pub open spec fn contracted(circuit: CircuitModel, group: GroupModel) -> Result<
    CircuitModel,
    SamplexError,
> {
    let end = reach(circuit.ops, group.members) as int;
    let parting = parted(circuit.ops.take(end), group.members);
    if parting.tangled {
        Err(SamplexError::MergeWouldCycle)
    } else {
        Ok(
            CircuitModel {
                ops: parting.ahead.push(fused(circuit, group)) + parting.behind + circuit.ops.skip(
                    end,
                ),
                ..circuit
            },
        )
    }
}

/// A circuit once the first few of its groups were contracted, those of one member left alone, up to the first
/// that cannot be.
pub open spec fn fused_upto(circuit: CircuitModel, groups: Seq<GroupModel>, count: nat) -> Outcome
    decreases count,
{
    if count == 0 {
        Outcome { circuit, error: None }
    } else {
        let before = fused_upto(circuit, groups, (count - 1) as nat);
        let group = groups[count - 1];
        if before.error is Some || group.members.len() <= 1 {
            before
        } else {
            match contracted(before.circuit, group) {
                Err(error) => Outcome { error: Some(error), ..before },
                Ok(after) => Outcome { circuit: after, error: None },
            }
        }
    }
}

/// A circuit once every group of its collectors was contracted.
pub open spec fn siblings_fused(circuit: CircuitModel) -> Outcome {
    let groups = grouped(circuit.num_qubits, circuit.ops);
    fused_upto(circuit, groups, groups.len())
}

/// A circuit with the body of one of its boxes replaced.
pub open spec fn with_body(circuit: CircuitModel, node: usize, body: CircuitModel) -> CircuitModel {
    CircuitModel {
        ops: circuit.ops.update(
            circuit.at(node),
            InstructionModel { blocks: seq![body], ..circuit.get(node) },
        ),
        ..circuit
    }
}

/// A circuit once collectors are merged among themselves in each scope: in the outermost first, then in the
/// body of each content box, up to the first merge that cannot be made.
pub open spec fn merged(circuit: CircuitModel) -> Outcome
    decreases circuit, 0nat,
{
    let outer = siblings_fused(circuit);
    if outer.error is Some {
        outer
    } else {
        bodies_merged(circuit.ops, outer.circuit)
    }
}

/// A circuit once collectors are merged in the bodies of the content boxes of a run.
pub open spec fn bodies_merged(ops: Seq<InstructionModel>, circuit: CircuitModel) -> Outcome
    decreases ops, 1nat,
{
    if ops.len() == 0 {
        Outcome { circuit, error: None }
    } else {
        let before = bodies_merged(ops.drop_last(), circuit);
        let inst = ops.last();
        if before.error is Some || !inst.op.is_content_box() || inst.blocks.len() != 1 {
            before
        } else {
            let inner = merged(inst.blocks[0]);
            Outcome {
                circuit: with_body(before.circuit, inst.node, inner.circuit),
                error: inner.error,
            }
        }
    }
}

/// What merging collectors makes of a circuit: escapes until none is left, then siblings fused in every scope.
pub open spec fn collectors_merged(root: CircuitModel) -> Outcome {
    let escaped = settled(root);
    if escaped.error is Some {
        escaped
    } else {
        merged(escaped.circuit)
    }
}

// --- What holds of the groups --------------------------------------------------------------------

/// What holds of a group of a circuit's collectors: its members are collectors of the circuit, its span is the
/// qubits they are on, and its subsystems are on its span.
pub open spec fn group_sound(circuit: CircuitModel, group: GroupModel) -> bool {
    &&& group.members.len() > 0
    &&& group.parts.len() > 0
    &&& forall|k: int|
        0 <= k < group.members.len() ==> circuit.has(#[trigger] group.members[k]) && circuit.get(
            group.members[k],
        ).op.is_collector()
    &&& forall|qubit: usize| #[trigger]
        group.span.contains(qubit) <==> exists|k: int|
            0 <= k < group.members.len() && (#[trigger] circuit.get(
                group.members[k],
            )).qubits.contains(qubit)
    &&& forall|s: int, k: int|
        0 <= s < group.subsystems.len() && 0 <= k < group.subsystems[s].len()
            ==> group.span.contains(#[trigger] group.subsystems[s][k])
    &&& forall|s: int|
        0 <= s < group.subsystems.len() ==> (#[trigger] group.subsystems[s]).no_duplicates()
            && group.subsystems[s].len() <= usize::MAX
    &&& group.members.len() > 1 ==> exists|qubit: usize| #[trigger] group.span.contains(qubit)
}

/// Whether a collector is a member of one of some groups.
pub open spec fn grouped_in(groups: Seq<GroupModel>, node: usize) -> bool {
    exists|g: int| 0 <= g < groups.len() && (#[trigger] groups[g]).members.contains(node)
}

/// Whether no collector is a member of two groups, or of one twice.
pub open spec fn each_once(groups: Seq<GroupModel>) -> bool {
    &&& forall|g: int| 0 <= g < groups.len() ==> (#[trigger] groups[g]).members.no_duplicates()
    &&& forall|g: int, h: int, node: usize|
        0 <= g < groups.len() && 0 <= h < groups.len() && #[trigger] groups[g].members.contains(
            node,
        ) && #[trigger] groups[h].members.contains(node) ==> g == h
}

/// Whether the collectors among a circuit's first few instructions are exactly the members of some groups.
pub open spec fn groups_cover(circuit: CircuitModel, groups: Seq<GroupModel>, count: int) -> bool {
    forall|node: usize| #[trigger]
        grouped_in(groups, node) <==> exists|i: int|
            0 <= i < count && (#[trigger] circuit.ops[i]).node == node
                && circuit.ops[i].op.is_collector()
}

proof fn lemma_subsystems(partition: Seq<Seq<usize>>, qubits: Seq<usize>)
    requires
        is_partition(partition),
        total(partition) == qubits.len(),
        qubits.no_duplicates(),
        qubits.len() <= usize::MAX,
    ensures
        forall|s: int, k: int|
            0 <= s < groups_of(partition, qubits).len() && 0 <= k < groups_of(partition, qubits)[s].len()
                ==> qubits.contains(#[trigger] groups_of(partition, qubits)[s][k]),
        forall|s: int|
            0 <= s < groups_of(partition, qubits).len() ==> (#[trigger] groups_of(
                partition,
                qubits,
            )[s]).no_duplicates() && groups_of(partition, qubits)[s].len() <= usize::MAX,
{
    let groups = groups_of(partition, qubits);
    assert forall|s: int, k: int| 0 <= s < groups.len() && 0 <= k < groups[s].len() implies qubits.contains(
        #[trigger] groups[s][k],
    ) by {
        assert(partition[s][k] < total(partition));
        assert(groups[s][k] == qubits[partition[s][k] as int]);
    }
    assert forall|s: int| 0 <= s < groups.len() implies (#[trigger] groups[s]).no_duplicates()
        && groups[s].len() <= usize::MAX by {
        assert forall|i: int, j: int|
            0 <= i < groups[s].len() && 0 <= j < groups[s].len() && i != j implies groups[s][i]
            != groups[s][j] by {
            assert(partition[s][i] < total(partition));
            assert(partition[s][j] < total(partition));
            assert(partition[s][i] != partition[s][j]);
            assert(groups[s][i] == qubits[partition[s][i] as int]);
            assert(groups[s][j] == qubits[partition[s][j] as int]);
        }
        lemma_part_within(partition, s);
    }
}

proof fn lemma_part_within(parts: Seq<Seq<usize>>, s: int)
    requires
        0 <= s < parts.len(),
    ensures
        parts[s].len() <= total(parts),
    decreases parts.len(),
{
    if s < parts.len() - 1 {
        lemma_part_within(parts.drop_last(), s);
        assert(parts.drop_last()[s] == parts[s]);
    }
}

/// Groups stay sound when qubits come off their frontiers.
proof fn lemma_released(circuit: CircuitModel, groups: Seq<GroupModel>, qubits: Seq<usize>)
    requires
        forall|g: int| 0 <= g < groups.len() ==> group_sound(circuit, #[trigger] groups[g]),
        each_once(groups),
    ensures
        forall|g: int|
            0 <= g < groups.len() ==> group_sound(circuit, #[trigger] released(groups, qubits)[g]),
        each_once(released(groups, qubits)),
        forall|node: usize| #[trigger]
            grouped_in(released(groups, qubits), node) <==> grouped_in(groups, node),
{
    let after = released(groups, qubits);
    assert forall|g: int| 0 <= g < groups.len() implies group_sound(circuit, #[trigger] after[g]) by {
        assert(group_sound(circuit, groups[g]));
        if after[g].members.len() > 1 {
            let qubit = choose|qubit: usize| #[trigger] groups[g].span.contains(qubit);
            assert(after[g].span.contains(qubit));
        }
    }
    assert forall|g: int| 0 <= g < after.len() implies (#[trigger] after[g]).members.no_duplicates() by {
        assert(groups[g].members.no_duplicates());
    }
    assert forall|g: int, h: int, node: usize|
        0 <= g < after.len() && 0 <= h < after.len() && #[trigger] after[g].members.contains(node)
            && #[trigger] after[h].members.contains(node) implies g == h by {
        assert(groups[g].members.contains(node));
        assert(groups[h].members.contains(node));
    }
    assert forall|node: usize| #[trigger] grouped_in(after, node) <==> grouped_in(groups, node) by {
        if grouped_in(after, node) {
            let g = choose|g: int|
                0 <= g < after.len() && (#[trigger] after[g]).members.contains(node);
            assert(groups[g].members.contains(node));
        }
        if grouped_in(groups, node) {
            let g = choose|g: int|
                0 <= g < groups.len() && (#[trigger] groups[g]).members.contains(node);
            assert(after[g].members.contains(node));
        }
    }
}

proof fn lemma_first_home(
    groups: Seq<GroupModel>,
    qubits: Seq<usize>,
    synthesizer: SynthesizerType,
    from: int,
)
    requires
        0 <= from <= groups.len(),
    ensures
        from <= first_home(groups, qubits, synthesizer, from) <= groups.len(),
        first_home(groups, qubits, synthesizer, from) < groups.len() ==> groups[first_home(
            groups,
            qubits,
            synthesizer,
            from,
        )].admits(qubits, synthesizer),
        forall|g: int|
            from <= g < first_home(groups, qubits, synthesizer, from) ==> !(
            #[trigger] groups[g]).admits(qubits, synthesizer),
    decreases groups.len() - from,
{
    if from < groups.len() && !groups[from].admits(qubits, synthesizer) {
        lemma_first_home(groups, qubits, synthesizer, from + 1);
    }
}

proof fn lemma_opened_sound(circuit: CircuitModel, i: int)
    requires
        circuit.wf(),
        equipped(circuit),
        0 <= i < circuit.ops.len(),
        circuit.ops[i].op.is_collector(),
    ensures
        group_sound(
            circuit,
            opened(
                circuit.num_qubits,
                circuit.ops[i],
                circuit.ops[i].op.collect()->Some_0,
            ),
        ),
{
    let inst = circuit.ops[i];
    let collect = inst.op.collect()->Some_0;
    let group = opened(circuit.num_qubits, inst, collect);
    assert(inst.wf(circuit.num_qubits, circuit.num_clbits));
    assert(equipped_at(inst));
    lemma_get(circuit, inst.node, i);
    lemma_subsystems(collect.partition, inst.qubits);
    assert(group.members[0] == inst.node);
    assert forall|qubit: usize| #[trigger] group.span.contains(qubit) <==> exists|k: int|
        0 <= k < group.members.len() && (#[trigger] circuit.get(
            group.members[k],
        )).qubits.contains(qubit) by {
        if group.span.contains(qubit) {
            assert(circuit.get(group.members[0]).qubits.contains(qubit));
        }
    }
}

proof fn lemma_joined_sound(circuit: CircuitModel, group: GroupModel, i: int)
    requires
        circuit.wf(),
        equipped(circuit),
        0 <= i < circuit.ops.len(),
        circuit.ops[i].op.is_collector(),
        group_sound(circuit, group),
        group.admits(
            circuit.ops[i].qubits,
            circuit.ops[i].op.collect()->Some_0.parts[0].synthesizer,
        ),
    ensures
        group_sound(
            circuit,
            group.joined(circuit.ops[i], circuit.ops[i].op.collect()->Some_0),
        ),
{
    let inst = circuit.ops[i];
    let collect = inst.op.collect()->Some_0;
    let after = group.joined(inst, collect);
    let more = groups_of(collect.partition, inst.qubits);
    assert(inst.wf(circuit.num_qubits, circuit.num_clbits));
    assert(equipped_at(inst));
    lemma_get(circuit, inst.node, i);
    lemma_subsystems(collect.partition, inst.qubits);
    let last = group.members.len() as int;
    assert(after.members[last] == inst.node);
    let shared = choose|k: int|
        0 <= k < inst.qubits.len() && group.span.contains(#[trigger] inst.qubits[k]);
    assert(after.span.contains(inst.qubits[shared]));
    assert forall|k: int| 0 <= k < after.members.len() implies circuit.has(
        #[trigger] after.members[k],
    ) && circuit.get(after.members[k]).op.is_collector() by {
        if k < last {
            assert(after.members[k] == group.members[k]);
        }
    }
    assert forall|qubit: usize| #[trigger] after.span.contains(qubit) <==> exists|k: int|
        0 <= k < after.members.len() && (#[trigger] circuit.get(
            after.members[k],
        )).qubits.contains(qubit) by {
        if group.span.contains(qubit) {
            let k = choose|k: int|
                0 <= k < group.members.len() && (#[trigger] circuit.get(
                    group.members[k],
                )).qubits.contains(qubit);
            assert(after.members[k] == group.members[k]);
            assert(circuit.get(after.members[k]).qubits.contains(qubit));
        }
        if inst.qubits.contains(qubit) {
            assert(circuit.get(after.members[last]).qubits.contains(qubit));
        }
        if exists|k: int|
            0 <= k < after.members.len() && (#[trigger] circuit.get(
                after.members[k],
            )).qubits.contains(qubit) {
            let k = choose|k: int|
                0 <= k < after.members.len() && (#[trigger] circuit.get(
                    after.members[k],
                )).qubits.contains(qubit);
            if k < last {
                assert(after.members[k] == group.members[k]);
                assert(circuit.get(group.members[k]).qubits.contains(qubit));
                assert(group.span.contains(qubit));
            }
        }
    }
    assert forall|s: int, k: int|
        0 <= s < after.subsystems.len() && 0 <= k < after.subsystems[s].len() implies after.span.contains(
        #[trigger] after.subsystems[s][k],
    ) by {
        if s < group.subsystems.len() {
            assert(after.subsystems[s] == group.subsystems[s]);
            assert(group.span.contains(group.subsystems[s][k]));
        } else {
            let t = s - group.subsystems.len();
            assert(after.subsystems[s] == more[t]);
            assert(inst.qubits.contains(more[t][k]));
        }
    }
    assert forall|s: int| 0 <= s < after.subsystems.len() implies (
    #[trigger] after.subsystems[s]).no_duplicates() && after.subsystems[s].len() <= usize::MAX by {
        if s < group.subsystems.len() {
            assert(after.subsystems[s] == group.subsystems[s]);
        } else {
            assert(after.subsystems[s] == more[s - group.subsystems.len()]);
        }
    }
}

/// Every collector of a scope is in exactly one group, once, and what a group says of its members is so.
pub proof fn lemma_each_collector_in_one_group(circuit: CircuitModel)
    requires
        circuit.wf(),
        equipped(circuit),
    ensures
        ({
            let groups = grouped(circuit.num_qubits, circuit.ops);
            &&& each_once(groups)
            &&& groups_cover(circuit, groups, circuit.ops.len() as int)
            &&& forall|g: int|
                0 <= g < groups.len() ==> group_sound(circuit, #[trigger] groups[g])
        }),
{
    let count = circuit.ops.len() as int;
    assert(circuit.ops.take(count) =~= circuit.ops);
    lemma_grouped(circuit, count);
}

proof fn lemma_grouped(circuit: CircuitModel, count: int)
    requires
        circuit.wf(),
        equipped(circuit),
        0 <= count <= circuit.ops.len(),
    ensures
        ({
            let groups = grouped(circuit.num_qubits, circuit.ops.take(count));
            &&& each_once(groups)
            &&& groups_cover(circuit, groups, count)
            &&& forall|g: int|
                0 <= g < groups.len() ==> group_sound(circuit, #[trigger] groups[g])
        }),
    decreases count,
{
    let after = grouped(circuit.num_qubits, circuit.ops.take(count));
    if count == 0 {
        assert forall|node: usize| !(#[trigger] grouped_in(after, node)) by {}
    } else {
        let i = count - 1;
        let groups = grouped(circuit.num_qubits, circuit.ops.take(i));
        let inst = circuit.ops[i];
        lemma_grouped(circuit, i);
        assert(circuit.ops.take(count).drop_last() =~= circuit.ops.take(i));
        assert(circuit.ops.take(count).last() == inst);
        lemma_released(circuit, groups, inst.qubits);
        let free = released(groups, inst.qubits);
        assert(!grouped_in(groups, inst.node)) by {
            if grouped_in(groups, inst.node) {
                let j = choose|j: int|
                    0 <= j < i && (#[trigger] circuit.ops[j]).node == inst.node
                        && circuit.ops[j].op.is_collector();
                assert(circuit.ops[j].node != circuit.ops[i].node);
            }
        }
        match inst.op.collect() {
            None => {
                assert(after == free);
            },
            Some(collect) => {
                let home = first_home(groups, inst.qubits, collect.parts[0].synthesizer, 0);
                lemma_first_home(groups, inst.qubits, collect.parts[0].synthesizer, 0);
                if home < groups.len() {
                    lemma_joined_sound(circuit, groups[home], i);
                    lemma_join_each_once(groups, home, inst, collect);
                } else {
                    lemma_opened_sound(circuit, i);
                    let group = opened(circuit.num_qubits, inst, collect);
                    lemma_open_each_once(free, group, inst.node);
                    assert forall|g: int| 0 <= g < after.len() implies group_sound(
                        circuit,
                        #[trigger] after[g],
                    ) by {
                        if g < free.len() {
                            assert(after[g] == free[g]);
                        }
                    }
                }
            },
        }
        assert forall|node: usize| #[trigger] grouped_in(after, node) <==> exists|j: int|
            0 <= j < count && (#[trigger] circuit.ops[j]).node == node
                && circuit.ops[j].op.is_collector() by {
            if grouped_in(groups, node) {
                let j = choose|j: int|
                    0 <= j < i && (#[trigger] circuit.ops[j]).node == node
                        && circuit.ops[j].op.is_collector();
                assert(circuit.ops[j].node == node);
            }
            if exists|j: int|
                0 <= j < count && (#[trigger] circuit.ops[j]).node == node
                    && circuit.ops[j].op.is_collector() {
                let j = choose|j: int|
                    0 <= j < count && (#[trigger] circuit.ops[j]).node == node
                        && circuit.ops[j].op.is_collector();
                if j < i {
                    assert(circuit.ops[j].node == node);
                    assert(grouped_in(groups, node));
                }
            }
            assert(circuit.ops[i].node == inst.node);
        }
    }
}

proof fn lemma_join_each_once(
    groups: Seq<GroupModel>,
    home: int,
    inst: InstructionModel,
    collect: CollectModel,
)
    requires
        each_once(groups),
        0 <= home < groups.len(),
        !grouped_in(groups, inst.node),
    ensures
        each_once(groups.update(home, groups[home].joined(inst, collect))),
        forall|node: usize| #[trigger]
            grouped_in(groups.update(home, groups[home].joined(inst, collect)), node) <==> (
            grouped_in(groups, node) || node == inst.node),
{
    let after = groups.update(home, groups[home].joined(inst, collect));
    let old_members = groups[home].members;
    let members = after[home].members;
    assert forall|node: usize| #[trigger] members.contains(node) <==> (old_members.contains(node)
        || node == inst.node) by {
        if old_members.contains(node) {
            let k = old_members.index_of(node);
            assert(old_members[k] == node);
            assert(members[k] == node);
        }
        assert(members[old_members.len() as int] == inst.node);
        if members.contains(node) && node != inst.node {
            let k = members.index_of(node);
            assert(members[k] == node);
            assert(old_members[k] == node);
        }
    }
    assert(!groups[home].members.contains(inst.node));
    assert forall|g: int| 0 <= g < after.len() implies (#[trigger] after[g]).members.no_duplicates() by {
        assert(groups[g].members.no_duplicates());
        if g == home {
            assert forall|i: int, j: int|
                0 <= i < members.len() && 0 <= j < members.len() && i != j implies members[i]
                != members[j] by {
                if i < old_members.len() {
                    assert(old_members[i] == members[i]);
                    assert(old_members.contains(members[i]));
                }
                if j < old_members.len() {
                    assert(old_members[j] == members[j]);
                    assert(old_members.contains(members[j]));
                }
            }
        }
    }
    assert forall|g: int, h: int, node: usize|
        0 <= g < after.len() && 0 <= h < after.len() && #[trigger] after[g].members.contains(node)
            && #[trigger] after[h].members.contains(node) implies g == h by {
        if node == inst.node {
            assert(!groups[g].members.contains(node));
            assert(!groups[h].members.contains(node));
        } else {
            assert(groups[g].members.contains(node));
            assert(groups[h].members.contains(node));
        }
    }
    assert forall|node: usize| #[trigger] grouped_in(after, node) <==> (grouped_in(groups, node)
        || node == inst.node) by {
        if grouped_in(groups, node) {
            let g = choose|g: int|
                0 <= g < groups.len() && (#[trigger] groups[g]).members.contains(node);
            assert(after[g].members.contains(node));
        }
        if node == inst.node {
            assert(after[home].members.contains(node));
        }
        if grouped_in(after, node) && node != inst.node {
            let g = choose|g: int|
                0 <= g < after.len() && (#[trigger] after[g]).members.contains(node);
            assert(groups[g].members.contains(node));
        }
    }
}

proof fn lemma_open_each_once(groups: Seq<GroupModel>, group: GroupModel, node: usize)
    requires
        each_once(groups),
        group.members == seq![node],
        !grouped_in(groups, node),
    ensures
        each_once(groups.push(group)),
        forall|other: usize| #[trigger]
            grouped_in(groups.push(group), other) <==> (grouped_in(groups, other) || other == node),
{
    let after = groups.push(group);
    let last = groups.len() as int;
    assert(after[last] == group);
    assert(group.members[0] == node);
    assert forall|other: usize| #[trigger] group.members.contains(other) <==> other == node by {}
    assert forall|g: int| 0 <= g < after.len() implies (#[trigger] after[g]).members.no_duplicates() by {
        if g < last {
            assert(after[g] == groups[g]);
        }
    }
    assert forall|g: int, h: int, other: usize|
        0 <= g < after.len() && 0 <= h < after.len() && #[trigger] after[g].members.contains(other)
            && #[trigger] after[h].members.contains(other) implies g == h by {
        if g < last {
            assert(groups[g].members.contains(other));
        }
        if h < last {
            assert(groups[h].members.contains(other));
        }
    }
    assert forall|other: usize| #[trigger] grouped_in(after, other) <==> (grouped_in(groups, other)
        || other == node) by {
        if grouped_in(groups, other) {
            let g = choose|g: int|
                0 <= g < groups.len() && (#[trigger] groups[g]).members.contains(other);
            assert(after[g].members.contains(other));
        }
        if other == node {
            assert(after[last].members.contains(other));
        }
        if grouped_in(after, other) && other != node {
            let g = choose|g: int|
                0 <= g < after.len() && (#[trigger] after[g]).members.contains(other);
            assert(groups[g].members.contains(other));
        }
    }
}

// --- What holds of a contraction ------------------------------------------------------------------

proof fn lemma_ascending(set: Set<usize>, limit: nat)
    requires
        limit <= usize::MAX,
    ensures
        wires_below(ascending(set, limit), limit),
        ascending(set, limit).len() <= limit,
        forall|k: int, l: int|
            0 <= k < l < ascending(set, limit).len() ==> (#[trigger] ascending(set, limit)[k]) < (
            #[trigger] ascending(set, limit)[l]),
        forall|item: usize| #[trigger]
            ascending(set, limit).contains(item) <==> item < limit && set.contains(item),
    decreases limit,
{
    if limit > 0 {
        let before = ascending(set, (limit - 1) as nat);
        let after = ascending(set, limit);
        let last = (limit - 1) as usize;
        lemma_ascending(set, (limit - 1) as nat);
        assert forall|item: usize| #[trigger] after.contains(item) <==> item < limit && set.contains(
            item,
        ) by {
            if before.contains(item) {
                let k = before.index_of(item);
                assert(before[k] == item);
                assert(after[k] == item);
            }
            if item == last && set.contains(item) {
                assert(after[before.len() as int] == item);
            }
            if after.contains(item) && item != last {
                let k = after.index_of(item);
                assert(after[k] == item);
                assert(before[k] == item);
            }
        }
        assert forall|k: int| 0 <= k < before.len() implies #[trigger] after[k] == before[k] && before[k]
            < last by {}
    }
}

/// Whether no two instructions of a run share a node number.
pub open spec fn distinct_nodes(ops: Seq<InstructionModel>) -> bool {
    forall|i: int, j: int|
        0 <= i < j < ops.len() ==> (#[trigger] ops[i]).node != (#[trigger] ops[j]).node
}

/// A run parts into instructions of its own, each once, and all of them but the group's.
proof fn lemma_parted(ops: Seq<InstructionModel>, members: Seq<usize>)
    requires
        distinct_nodes(ops),
    ensures
        ({
            let parting = parted(ops, members);
            let all = parting.ahead + parting.behind;
            &&& distinct_nodes(all)
            &&& forall|k: int|
                0 <= k < all.len() ==> ops.contains(#[trigger] all[k]) && !members.contains(
                    all[k].node,
                )
            &&& forall|i: int|
                0 <= i < ops.len() && !members.contains((#[trigger] ops[i]).node) ==> all.contains(
                    ops[i],
                )
        }),
    decreases ops.len(),
{
    if ops.len() > 0 {
        let front = ops.drop_last();
        let inst = ops.last();
        let last = ops.len() - 1;
        assert(ops[last] == inst);
        assert(distinct_nodes(front)) by {
            assert forall|i: int, j: int| 0 <= i < j < front.len() implies (#[trigger] front[i]).node != (
            #[trigger] front[j]).node by {
                assert(ops[i].node != ops[j].node);
            }
        }
        lemma_parted(front, members);
        let before = parted(front, members);
        let after = parted(ops, members);
        let known = before.ahead + before.behind;
        let all = after.ahead + after.behind;
        assert forall|k: int| 0 <= k < known.len() implies ops.contains(#[trigger] known[k])
            && known[k].node != inst.node by {
            let i = front.index_of(known[k]);
            assert(front.contains(known[k]));
            assert(front[i] == known[k]);
            assert(ops[i] == known[k]);
            assert(ops[i].node != ops[last].node);
        }
        let cut = before.ahead.len() as int;
        if members.contains(inst.node) {
            assert(all == known);
        } else if on_any(inst, before.held) {
            assert(all =~= known.push(inst));
            lemma_insert_distinct(known, known.len() as int, inst);
            assert(known.insert(known.len() as int, inst) =~= all);
        } else {
            assert(all =~= known.insert(cut, inst));
            lemma_insert_distinct(known, cut, inst);
        }
        assert forall|k: int| 0 <= k < all.len() implies ops.contains(#[trigger] all[k])
            && !members.contains(all[k].node) by {
            if !members.contains(inst.node) {
                let at = if on_any(inst, before.held) {
                    known.len() as int
                } else {
                    cut
                };
                if k < at {
                    assert(all[k] == known[k]);
                } else if k == at {
                    assert(all[k] == inst);
                    assert(ops[last] == inst);
                } else {
                    assert(all[k] == known[k - 1]);
                }
            }
        }
        assert forall|i: int| 0 <= i < ops.len() && !members.contains(
            (#[trigger] ops[i]).node,
        ) implies all.contains(ops[i]) by {
            if i < last {
                assert(front[i] == ops[i]);
                assert(known.contains(front[i]));
                let k = known.index_of(front[i]);
                assert(known[k] == ops[i]);
                if members.contains(inst.node) {
                    assert(all[k] == ops[i]);
                } else {
                    let at = if on_any(inst, before.held) {
                        known.len() as int
                    } else {
                        cut
                    };
                    if k < at {
                        assert(all[k] == ops[i]);
                    } else {
                        assert(all[k + 1] == ops[i]);
                    }
                }
            } else {
                let at = if on_any(inst, before.held) {
                    known.len() as int
                } else {
                    cut
                };
                assert(all[at] == inst);
            }
        }
    }
}

proof fn lemma_insert_distinct(ops: Seq<InstructionModel>, at: int, inst: InstructionModel)
    requires
        distinct_nodes(ops),
        0 <= at <= ops.len(),
        forall|k: int| 0 <= k < ops.len() ==> (#[trigger] ops[k]).node != inst.node,
    ensures
        distinct_nodes(ops.insert(at, inst)),
{
    let after = ops.insert(at, inst);
    assert forall|i: int, j: int| 0 <= i < j < after.len() implies (#[trigger] after[i]).node != (
    #[trigger] after[j]).node by {
        let a = if i < at {
            i
        } else {
            i - 1
        };
        let b = if j < at {
            j
        } else {
            j - 1
        };
        if i != at {
            assert(after[i] == ops[a]);
        }
        if j != at {
            assert(after[j] == ops[b]);
        }
    }
}

proof fn lemma_reach(ops: Seq<InstructionModel>, members: Seq<usize>)
    ensures
        reach(ops, members) <= ops.len(),
        forall|i: int|
            reach(ops, members) <= i < ops.len() ==> !members.contains((#[trigger] ops[i]).node),
    decreases ops.len(),
{
    if ops.len() > 0 && !members.contains(ops.last().node) {
        let front = ops.drop_last();
        lemma_reach(front, members);
        assert forall|i: int| reach(ops, members) <= i < ops.len() implies !members.contains(
            (#[trigger] ops[i]).node,
        ) by {
            if i < front.len() {
                assert(front[i] == ops[i]);
            }
        }
    }
}

/// Contracting a group leaves a circuit well formed, with every other instruction as it was and one collector
/// for the group.
proof fn lemma_contracted(circuit: CircuitModel, group: GroupModel)
    requires
        circuit.wf(),
        group.members.len() > 0,
        fused(circuit, group).wf(circuit.num_qubits, circuit.num_clbits),
        contracted(circuit, group) is Ok,
    ensures
        ({
            let after = contracted(circuit, group)->Ok_0;
            &&& after.wf()
            &&& after.num_qubits == circuit.num_qubits
            &&& after.num_clbits == circuit.num_clbits
            &&& after.has(group.members[0])
            &&& after.get(group.members[0]) == fused(circuit, group)
            &&& forall|node: usize| #[trigger]
                circuit.has(node) && !group.members.contains(node) ==> after.has(node) && after.get(node)
                    == circuit.get(node)
        }),
{
    let members = group.members;
    let end = reach(circuit.ops, members) as int;
    let run = circuit.ops.take(end);
    let rest = circuit.ops.skip(end);
    let parting = parted(run, members);
    let one = fused(circuit, group);
    let after = contracted(circuit, group)->Ok_0;
    lemma_reach(circuit.ops, members);
    assert(distinct_nodes(run)) by {
        assert forall|i: int, j: int| 0 <= i < j < run.len() implies (#[trigger] run[i]).node != (
        #[trigger] run[j]).node by {
            assert(circuit.ops[i].node != circuit.ops[j].node);
        }
    }
    lemma_parted(run, members);
    let all = parting.ahead + parting.behind;
    let cut = parting.ahead.len() as int;
    let mixed = parting.ahead.push(one) + parting.behind;
    assert(mixed =~= all.insert(cut, one));
    assert(members.contains(one.node)) by {
        assert(members[0] == one.node);
    }
    assert forall|k: int| 0 <= k < all.len() implies (#[trigger] all[k]).node != one.node by {}
    lemma_insert_distinct(all, cut, one);
    assert forall|k: int| 0 <= k < mixed.len() implies #[trigger] mixed[k] == one || (all.contains(
        mixed[k],
    ) && run.contains(mixed[k])) by {
        if k < cut {
            assert(mixed[k] == all[k]);
        } else if k > cut {
            assert(mixed[k] == all[k - 1]);
        }
    }
    assert forall|i: int, j: int| 0 <= i < j < after.ops.len() implies (#[trigger] after.ops[i]).node
        != (#[trigger] after.ops[j]).node by {
        if j < mixed.len() {
            assert(after.ops[i] == mixed[i]);
            assert(after.ops[j] == mixed[j]);
        } else {
            let b = j - mixed.len() + end;
            assert(after.ops[j] == circuit.ops[b]);
            assert(!members.contains(circuit.ops[b].node));
            if i < mixed.len() {
                assert(after.ops[i] == mixed[i]);
                if mixed[i] != one {
                    let a = run.index_of(mixed[i]);
                    assert(run[a] == mixed[i]);
                    assert(circuit.ops[a] == mixed[i]);
                    assert(circuit.ops[a].node != circuit.ops[b].node);
                }
            } else {
                let a = i - mixed.len() + end;
                assert(after.ops[i] == circuit.ops[a]);
                assert(circuit.ops[a].node != circuit.ops[b].node);
            }
        }
    }
    assert forall|i: int| 0 <= i < after.ops.len() implies (#[trigger] after.ops[i]).wf(
        after.num_qubits,
        after.num_clbits,
    ) by {
        if i < mixed.len() {
            assert(after.ops[i] == mixed[i]);
            if mixed[i] != one {
                let a = run.index_of(mixed[i]);
                assert(run[a] == mixed[i]);
                assert(circuit.ops[a] == mixed[i]);
            }
        } else {
            assert(after.ops[i] == circuit.ops[i - mixed.len() + end]);
        }
    }
    assert(after.wf());
    assert(after.ops[cut] == one);
    lemma_get(after, one.node, cut);
    assert forall|node: usize| #[trigger] circuit.has(node) && !members.contains(node) implies after.has(
        node,
    ) && after.get(node) == circuit.get(node) by {
        let i = circuit.at(node);
        assert(circuit.ops[i].node == node);
        if i < end {
            assert(run[i] == circuit.ops[i]);
            assert(all.contains(run[i]));
            let k = all.index_of(run[i]);
            assert(all[k] == run[i]);
            let p = if k < cut {
                k
            } else {
                k + 1
            };
            assert(mixed[p] == run[i]);
            assert(after.ops[p] == mixed[p]);
            lemma_get(after, node, p);
        } else {
            let p = i - end + mixed.len();
            assert(after.ops[p] == circuit.ops[i]);
            lemma_get(after, node, p);
        }
    }
}

// --- Carrying it out -----------------------------------------------------------------------------

struct Group {
    members: Vec<usize>,
    frontier: IndexSet,
    span: IndexSet,
    subsystems: Vec<Vec<usize>>,
    parts: Vec<CollectPart>,
}

impl View for Group {
    type V = GroupModel;

    closed spec fn view(&self) -> GroupModel {
        GroupModel {
            members: self.members@,
            frontier: self.frontier@,
            span: self.span@,
            subsystems: nested(self.subsystems@),
            parts: self.parts@,
        }
    }
}

spec fn groups_model(groups: Seq<Group>) -> Seq<GroupModel> {
    groups.map_values(|group: Group| group@)
}

/// Whether a collector on some qubits may fuse into a group.
fn admits(group: &Group, qubits: &Vec<usize>, synthesizer: SynthesizerType) -> (yes: bool)
    ensures
        yes == group@.admits(qubits@, synthesizer),
{
    let mut p: usize = 0;
    while p < group.parts.len()
        invariant
            p <= group.parts.len(),
            forall|q: int| 0 <= q < p ==> (#[trigger] group@.parts[q]).synthesizer == synthesizer,
        decreases group.parts.len() - p,
    {
        assert(group@.parts[p as int] == group.parts@[p as int]);
        if group.parts[p].synthesizer != synthesizer {
            return false;
        }
        p += 1;
    }
    // A shared qubit is required: two collectors on disjoint qubits are concurrent, so their relative position
    // is an artifact of the order the circuit is listed in, and fusing them would make the output depend on it.
    let mut shared = false;
    let mut k: usize = 0;
    while k < qubits.len()
        invariant
            k <= qubits.len(),
            shared <==> exists|j: int| 0 <= j < k && group@.span.contains(#[trigger] qubits@[j]),
            forall|j: int| 0 <= j < k ==> group@.frontier.contains(#[trigger] qubits@[j]),
        decreases qubits.len() - k,
    {
        if !group.frontier.contains(qubits[k]) {
            assert(!group@.frontier.contains(qubits@[k as int]));
            return false;
        }
        if group.span.contains(qubits[k]) {
            shared = true;
            assert(group@.span.contains(qubits@[k as int]));
        }
        k += 1;
    }
    shared
}

/// The open group this collector may fuse into. First match wins, which keeps the result deterministic since
/// groups are in the order collectors were encountered.
fn find_mergeable(groups: &Vec<Group>, qubits: &Vec<usize>, synthesizer: SynthesizerType) -> (home: usize)
    ensures
        home == first_home(groups_model(groups@), qubits@, synthesizer, 0),
        home <= groups@.len(),
{
    let ghost model = groups_model(groups@);
    let mut g: usize = 0;
    while g < groups.len()
        invariant
            g <= groups.len(),
            model == groups_model(groups@),
            first_home(model, qubits@, synthesizer, 0) == first_home(
                model,
                qubits@,
                synthesizer,
                g as int,
            ),
        decreases groups.len() - g,
    {
        assert(model[g as int] == groups@[g as int]@);
        if admits(&groups[g], qubits, synthesizer) {
            return g;
        }
        g += 1;
    }
    g
}

/// Take qubits off every open group's frontier, so a later collector on them can no longer fuse.
///
/// The only closing rule: real content, emissions and independently-positioned collectors all do this.
fn release(groups: &mut Vec<Group>, qubits: &Vec<usize>)
    ensures
        groups_model(final(groups)@) == released(groups_model(old(groups)@), qubits@),
{
    let ghost before = groups_model(groups@);
    let mut g: usize = 0;
    while g < groups.len()
        invariant
            g <= groups.len(),
            groups@.len() == before.len(),
            forall|h: int| 0 <= h < g ==> (#[trigger] groups@[h])@ == before[h].without(qubits@),
            forall|h: int| g <= h < groups@.len() ==> (#[trigger] groups@[h])@ == before[h],
        decreases groups.len() - g,
    {
        let ghost given = groups@;
        let mut k: usize = 0;
        assert(groups@[g as int]@.frontier =~= before[g as int].frontier.difference(
            qubits@.take(0).to_set(),
        ));
        while k < qubits.len()
            invariant
                k <= qubits.len(),
                g < groups@.len(),
                groups@.len() == before.len(),
                given.len() == groups@.len(),
                given[g as int]@ == before[g as int],
                forall|h: int|
                    0 <= h < groups@.len() && h != g ==> #[trigger] groups@[h] == given[h],
                groups@[g as int]@ == (GroupModel {
                    frontier: before[g as int].frontier.difference(qubits@.take(k as int).to_set()),
                    ..before[g as int]
                }),
            decreases qubits.len() - k,
        {
            groups[g].frontier.remove(qubits[k]);
            proof {
                let done = qubits@.take(k as int);
                let more = qubits@.take(k + 1);
                assert(more =~= done.push(qubits@[k as int]));
                assert forall|item: usize| #[trigger] more.to_set().contains(item) <==> (
                done.to_set().contains(item) || item == qubits@[k as int]) by {
                    if done.contains(item) {
                        assert(more[done.index_of(item)] == item);
                    }
                    assert(more[k as int] == qubits@[k as int]);
                    if more.contains(item) && item != qubits@[k as int] {
                        assert(done[more.index_of(item)] == item);
                    }
                }
                assert(groups@[g as int]@.frontier =~= before[g as int].frontier.difference(
                    more.to_set(),
                ));
                assert(groups@[g as int]@ =~= (GroupModel {
                    frontier: before[g as int].frontier.difference(more.to_set()),
                    ..before[g as int]
                }));
            }
            k += 1;
        }
        assert(qubits@.take(k as int) =~= qubits@);
        proof {
            assert forall|h: int| 0 <= h < g + 1 implies (#[trigger] groups@[h])@ == before[h].without(
                qubits@,
            ) by {
                if h < g {
                    assert(groups@[h] == given[h]);
                }
            }
            assert forall|h: int| g + 1 <= h < groups@.len() implies (#[trigger] groups@[h])@
                == before[h] by {
                assert(groups@[h] == given[h]);
            }
        }
        g += 1;
    }
    assert(groups_model(groups@) =~= released(before, qubits@));
}

/// Add qubits to a set.
pub(crate) fn extend_set(set: &mut IndexSet, items: &Vec<usize>)
    ensures
        final(set)@ == old(set)@.union(items@.to_set()),
{
    let ghost before = set@;
    let mut k: usize = 0;
    assert(set@ =~= before.union(items@.take(0).to_set()));
    while k < items.len()
        invariant
            k <= items.len(),
            set@ == before.union(items@.take(k as int).to_set()),
        decreases items.len() - k,
    {
        set.insert(items[k]);
        proof {
            let done = items@.take(k as int);
            let more = items@.take(k + 1);
            assert forall|item: usize| #[trigger] more.to_set().contains(item) <==> (
            done.to_set().contains(item) || item == items@[k as int]) by {
                if done.contains(item) {
                    assert(more[done.index_of(item)] == item);
                }
                assert(more[k as int] == items@[k as int]);
                if more.contains(item) && item != items@[k as int] {
                    assert(done[more.index_of(item)] == item);
                }
            }
            assert(set@ =~= before.union(more.to_set()));
        }
        k += 1;
    }
    assert(items@.take(k as int) =~= items@);
}

/// Add groups of qubits to a list of them.
fn extend_subsystems(list: &mut Vec<Vec<usize>>, more: Vec<Vec<usize>>)
    ensures
        nested(final(list)@) == nested(old(list)@) + nested(more@),
{
    let ghost before = nested(list@);
    let ghost said = nested(more@);
    let mut more = more;
    let ghost given = list@;
    let ghost added = more@;
    list.append(&mut more);
    assert(list@ =~= given + added);
    assert(nested(list@) =~= before + said);
}

/// Add a collector's contribution to an open group.
fn join(group: &mut Group, inst: &Instruction, spec: &Collect)
    requires
        total(spec@.partition) == inst@.qubits.len(),
    ensures
        final(group)@ == old(group)@.joined(inst@, spec@),
{
    let ghost before = group@;
    group.members.push(inst.node);
    extend_set(&mut group.span, &inst.qubits);
    let subsystems = spec.partition.groups(inst.qubits.as_slice());
    extend_subsystems(&mut group.subsystems, subsystems);
    assert(group@ =~= before.joined(inst@, spec@));
}

/// A group of one collector.
fn open_group(num_qubits: usize, inst: &Instruction, spec: &Collect) -> (group: Group)
    requires
        total(spec@.partition) == inst@.qubits.len(),
    ensures
        group@ == opened(num_qubits as nat, inst@, spec@),
{
    let mut frontier = IndexSet::new();
    let mut q: usize = 0;
    assert(frontier@ =~= Set::new(|qubit: usize| qubit < 0nat));
    while q < num_qubits
        invariant
            q <= num_qubits,
            frontier@ == Set::new(|qubit: usize| qubit < q as nat),
        decreases num_qubits - q,
    {
        frontier.insert(q);
        q += 1;
        assert(frontier@ =~= Set::new(|qubit: usize| qubit < q as nat));
    }
    let mut span = IndexSet::new();
    extend_set(&mut span, &inst.qubits);
    assert(span@ =~= inst@.qubits.to_set());
    let mut members: Vec<usize> = Vec::new();
    members.push(inst.node);
    assert(members@ =~= seq![inst@.node]);
    let group = Group {
        members,
        frontier,
        span,
        subsystems: spec.partition.groups(inst.qubits.as_slice()),
        parts: clone_list(&spec.parts),
    };
    assert(group@ =~= opened(num_qubits as nat, inst@, spec@));
    group
}

/// The groups a scope's collectors fall into.
fn group_collectors(dag: &Circuit) -> (groups: Vec<Group>)
    requires
        dag@.wf(),
        equipped(dag@),
    ensures
        groups_model(groups@) == grouped(dag@.num_qubits, dag@.ops),
{
    let ghost ops = dag@.ops;
    let mut groups: Vec<Group> = Vec::new();
    assert(ops.take(0) =~= Seq::<InstructionModel>::empty());
    assert(groups_model(groups@) =~= Seq::<GroupModel>::empty());
    let mut i: usize = 0;
    while i < dag.ops.len()
        invariant
            i <= dag.ops.len(),
            ops == dag@.ops,
            dag@.wf(),
            equipped(dag@),
            groups_model(groups@) == grouped(dag@.num_qubits, ops.take(i as int)),
        decreases dag.ops.len() - i,
    {
        let inst = &dag.ops[i];
        let ghost before = groups_model(groups@);
        proof {
            assert(ops[i as int] == inst@);
            assert(ops.take(i + 1).drop_last() =~= ops.take(i as int));
            assert(ops.take(i + 1).last() == inst@);
            assert(equipped_at(ops[i as int]));
        }
        match collect_annotation(inst) {
            Some(spec) => {
                let home = find_mergeable(&groups, &inst.qubits, spec.synthesizer());
                if home < groups.len() {
                    // The open group keeps its position and gains this collector's content and qubits. Nothing
                    // is released: a merged contribution has no position of its own.
                    assert(before[home as int] == groups@[home as int]@);
                    join(&mut groups[home], inst, &spec);
                    assert(groups_model(groups@) =~= before.update(
                        home as int,
                        before[home as int].joined(inst@, spec@),
                    ));
                } else {
                    // Nothing compatible is open on these qubits, so this collector gets a position of its own
                    // and becomes a layer, blocking later collectors on these wires.
                    release(&mut groups, &inst.qubits);
                    let ghost free = groups_model(groups@);
                    let group = open_group(dag.num_qubits, inst, &spec);
                    let ghost said = group@;
                    groups.push(group);
                    assert(groups_model(groups@) =~= free.push(said));
                }
            },
            None => {
                release(&mut groups, &inst.qubits);
            },
        }
        i += 1;
    }
    assert(ops.take(i as int) =~= ops);
    groups
}

/// The numbers of a set below a limit, ascending.
fn sorted(set: &IndexSet, limit: usize) -> (items: Vec<usize>)
    ensures
        items@ == ascending(set@, limit as nat),
{
    let mut items: Vec<usize> = Vec::new();
    let mut q: usize = 0;
    while q < limit
        invariant
            q <= limit,
            items@ == ascending(set@, q as nat),
        decreases limit - q,
    {
        if set.contains(q) {
            items.push(q);
        }
        q += 1;
    }
    items
}

/// How the contracted collector groups its span, as indices into the merged frame.
///
/// Members can overlap, and two subsystems sharing a qubit cannot be told apart afterwards, so overlapping
/// subsystems coarsen into one part.
fn merged_partition(group: &Group, frame: &Vec<usize>) -> (partition: Partition)
    requires
        frame@.no_duplicates(),
        forall|s: int|
            0 <= s < group@.subsystems.len() ==> on_frame(frame@, #[trigger] group@.subsystems[s]),
    ensures
        partition@ == coarsened_parts(
            frame@.len(),
            group@.subsystems.map_values(|subsystem: Seq<usize>| places_in(frame@, subsystem)),
        ),
        total(partition@) == frame@.len(),
{
    let ghost said = group@.subsystems.map_values(
        |subsystem: Seq<usize>| places_in(frame@, subsystem),
    );
    let width: usize = frame.len();
    let mut places: Vec<Vec<usize>> = Vec::new();
    let mut s: usize = 0;
    while s < group.subsystems.len()
        invariant
            s <= group.subsystems.len(),
            width == frame@.len(),
            frame@.no_duplicates(),
            forall|t: int|
                0 <= t < group@.subsystems.len() ==> on_frame(frame@, #[trigger] group@.subsystems[t]),
            said == group@.subsystems.map_values(
                |subsystem: Seq<usize>| places_in(frame@, subsystem),
            ),
            nested(places@) == said.take(s as int),
            groups_below(width as nat, nested(places@)),
        decreases group.subsystems.len() - s,
    {
        let ghost before = nested(places@);
        assert(group@.subsystems[s as int] == group.subsystems@[s as int]@);
        let placed = remap(frame, &group.subsystems[s]);
        proof {
            lemma_places(frame@, group@.subsystems[s as int]);
        }
        let ghost added = placed@;
        places.push(placed);
        proof {
            assert(nested(places@) =~= before.push(added));
            assert(nested(places@) =~= said.take(s + 1));
            assert forall|g: int, k: int|
                0 <= g < nested(places@).len() && 0 <= k < nested(places@)[g].len() implies (
            #[trigger] nested(places@)[g][k]) < width by {
                if g < before.len() {
                    assert(before[g][k] < width);
                } else {
                    assert(nested(places@)[g] == added);
                }
            }
        }
        s += 1;
    }
    assert(said.take(s as int) =~= said);
    proof {
        lemma_coarsening_is_a_partition(width as nat, said);
    }
    coarsened(width, &places)
}

/// The descriptors of the collector a group fuses into.
fn merged_spec(group: &Group, frame: &Vec<usize>) -> (spec: Collect)
    requires
        frame@.no_duplicates(),
        group@.parts.len() > 0,
        forall|s: int|
            0 <= s < group@.subsystems.len() ==> on_frame(frame@, #[trigger] group@.subsystems[s]),
    ensures
        spec@ == merged_collect(group@, frame@),
{
    let partition = merged_partition(group, frame);
    let synthesizer = group.parts[0].synthesizer;
    let mut parts: Vec<CollectPart> = Vec::new();
    let count: usize = partition.len();
    let mut p: usize = 0;
    while p < count
        invariant
            p <= count,
            parts@.len() == p,
            forall|q: int|
                0 <= q < p ==> #[trigger] parts@[q] == (CollectPart { synthesizer }),
        decreases count - p,
    {
        parts.push(CollectPart { synthesizer });
        p += 1;
    }
    let spec = Collect { partition, parts };
    assert(spec@.parts =~= merged_collect(group@, frame@).parts);
    spec
}

/// The classical wires the members cover.
fn merged_clbits(dag: &Circuit, group: &Group) -> (clbits: Vec<usize>)
    requires
        dag@.wf(),
        forall|k: int|
            0 <= k < group@.members.len() ==> dag@.has(#[trigger] group@.members[k]),
    ensures
        clbits@ == ascending(clbits_of(dag@, group@.members), dag@.num_clbits),
{
    let ghost members = group@.members;
    let mut set = IndexSet::new();
    let mut k: usize = 0;
    assert(members.take(0) =~= Seq::<usize>::empty());
    while k < group.members.len()
        invariant
            k <= group.members.len(),
            dag@.wf(),
            members == group@.members,
            forall|j: int| 0 <= j < members.len() ==> dag@.has(#[trigger] members[j]),
            set@ == clbits_of(dag@, members.take(k as int)),
        decreases group.members.len() - k,
    {
        proof {
            assert(members[k as int] == group.members@[k as int]);
            assert(members.take(k + 1).drop_last() =~= members.take(k as int));
            assert(members.take(k + 1).last() == members[k as int]);
        }
        extend_set(&mut set, &dag.instruction(group.members[k]).clbits);
        k += 1;
    }
    assert(members.take(k as int) =~= members);
    sorted(&set, dag.num_clbits)
}

/// Whether a group's frame takes the qubits of every member.
spec fn frame_fits(circuit: CircuitModel, members: Seq<usize>, frame: Seq<usize>) -> bool {
    &&& frame.no_duplicates()
    &&& forall|k: int|
        0 <= k < members.len() ==> circuit.has(#[trigger] members[k]) && on_frame(
            frame,
            circuit.get(members[k]).qubits,
        )
}

/// Concatenate the members' bodies into one, moved from each member's frame into the merged frame.
///
/// Members are visited in composition order, so the result's composition order matches theirs.
fn concatenated(dag: &Circuit, group: &Group, frame: &Vec<usize>, num_clbits: usize) -> (body: Circuit)
    requires
        dag@.wf(),
        frame_fits(dag@, group@.members, frame@),
    ensures
        body@ == merged_body(dag@, group@.members, frame@, num_clbits as nat),
        open_body(body@, frame@, num_clbits as nat),
{
    let ghost members = group@.members;
    let mut body = new_dag_body(frame.len(), num_clbits, 0);
    let mut k: usize = 0;
    assert(members.take(0) =~= Seq::<usize>::empty());
    while k < group.members.len()
        invariant
            k <= group.members.len(),
            dag@.wf(),
            members == group@.members,
            frame_fits(dag@, members, frame@),
            body@ == merged_body(dag@, members.take(k as int), frame@, num_clbits as nat),
            open_body(body@, frame@, num_clbits as nat),
        decreases group.members.len() - k,
    {
        proof {
            assert(members[k as int] == group.members@[k as int]);
            assert(members.take(k + 1).drop_last() =~= members.take(k as int));
            assert(members.take(k + 1).last() == members[k as int]);
            let inst = dag@.get(members[k as int]);
            assert(dag@.has(members[k as int]));
            assert(inst.wf(dag@.num_qubits, dag@.num_clbits));
        }
        let inst = dag.instruction(group.members[k]);
        if inst.blocks.len() == 1 {
            assert(inst@.blocks[0] == inst.blocks@[0]@);
            append_contribution(
                &mut body,
                &inst.blocks[0],
                &inst.qubits,
                frame,
                Ghost(num_clbits as nat),
            );
        }
        k += 1;
    }
    assert(members.take(k as int) =~= members);
    body
}

/// The collector a group fuses into.
fn fused_instruction(dag: &Circuit, group: &Group) -> (one: Instruction)
    requires
        dag@.wf(),
        group_sound(dag@, group@),
    ensures
        one@ == fused(dag@, group@),
        one@.wf(dag@.num_qubits, dag@.num_clbits),
{
    let frame = sorted(&group.span, dag.num_qubits);
    let clbits = merged_clbits(dag, group);
    proof {
        lemma_ascending(group@.span, dag@.num_qubits);
        lemma_ascending(clbits_of(dag@, group@.members), dag@.num_clbits);
        lemma_span_on_frame(dag@, group@);
    }
    let body = concatenated(dag, group, &frame, clbits.len());
    let op = collect_op(merged_spec(group, &frame));
    let mut blocks: Vec<Circuit> = Vec::new();
    let ghost inner = body@;
    blocks.push(body);
    let one = Instruction {
        node: group.members[0],
        op,
        qubits: frame,
        clbits,
        params: Vec::new(),
        blocks,
    };
    assert(one@.blocks =~= seq![inner]);
    assert(one@.params =~= Seq::<ParamModel>::empty());
    one
}

proof fn lemma_span_on_frame(circuit: CircuitModel, group: GroupModel)
    requires
        circuit.wf(),
        group_sound(circuit, group),
        circuit.num_qubits <= usize::MAX,
    ensures
        frame_fits(circuit, group.members, ascending(group.span, circuit.num_qubits)),
        forall|s: int|
            0 <= s < group.subsystems.len() ==> on_frame(
                ascending(group.span, circuit.num_qubits),
                #[trigger] group.subsystems[s],
            ),
{
    let frame = ascending(group.span, circuit.num_qubits);
    lemma_ascending(group.span, circuit.num_qubits);
    assert forall|k: int| 0 <= k < group.members.len() implies circuit.has(
        #[trigger] group.members[k],
    ) && on_frame(frame, circuit.get(group.members[k]).qubits) by {
        let inst = circuit.get(group.members[k]);
        assert(circuit.has(group.members[k]));
        assert(inst.wf(circuit.num_qubits, circuit.num_clbits));
        assert forall|q: int| 0 <= q < inst.qubits.len() implies frame.contains(
            #[trigger] inst.qubits[q],
        ) by {
            assert(circuit.get(group.members[k]).qubits.contains(inst.qubits[q]));
            assert(group.span.contains(inst.qubits[q]));
        }
    }
    assert forall|s: int| 0 <= s < group.subsystems.len() implies on_frame(
        frame,
        #[trigger] group.subsystems[s],
    ) by {
        assert forall|k: int| 0 <= k < group.subsystems[s].len() implies frame.contains(
            #[trigger] group.subsystems[s][k],
        ) by {
            let qubit = group.subsystems[s][k];
            assert(group.span.contains(qubit));
            let m = choose|m: int|
                0 <= m < group.members.len() && (#[trigger] circuit.get(
                    group.members[m],
                )).qubits.contains(qubit);
            let inst = circuit.get(group.members[m]);
            assert(circuit.has(group.members[m]));
            assert(inst.wf(circuit.num_qubits, circuit.num_clbits));
            assert(inst.qubits[inst.qubits.index_of(qubit)] == qubit);
        }
    }
}

/// Whether an instruction is on one of some wires.
fn touches_any(inst: &Instruction, qubits: &IndexSet, clbits: &IndexSet) -> (yes: bool)
    ensures
        yes == on_any(inst@, (qubits@, clbits@)),
{
    let mut k: usize = 0;
    while k < inst.qubits.len()
        invariant
            k <= inst.qubits.len(),
            forall|j: int| 0 <= j < k ==> !qubits@.contains(#[trigger] inst@.qubits[j]),
        decreases inst.qubits.len() - k,
    {
        if qubits.contains(inst.qubits[k]) {
            assert(qubits@.contains(inst@.qubits[k as int]));
            return true;
        }
        k += 1;
    }
    let mut k: usize = 0;
    while k < inst.clbits.len()
        invariant
            k <= inst.clbits.len(),
            forall|j: int| 0 <= j < inst@.qubits.len() ==> !qubits@.contains(
                #[trigger] inst@.qubits[j],
            ),
            forall|j: int| 0 <= j < k ==> !clbits@.contains(#[trigger] inst@.clbits[j]),
        decreases inst.clbits.len() - k,
    {
        if clbits.contains(inst.clbits[k]) {
            assert(clbits@.contains(inst@.clbits[k as int]));
            return true;
        }
        k += 1;
    }
    false
}

/// How much of a scope it takes to hold all of a group.
fn find_reach(dag: &Circuit, members: &Vec<usize>) -> (end: usize)
    ensures
        end == reach(dag@.ops, members@),
        end <= dag@.ops.len(),
{
    let ghost ops = dag@.ops;
    let mut end: usize = dag.ops.len();
    assert(ops.take(end as int) =~= ops);
    while end > 0
        invariant
            end <= dag.ops.len(),
            ops == dag@.ops,
            reach(ops, members@) == reach(ops.take(end as int), members@),
        decreases end,
    {
        assert(ops.take(end as int).last() == dag.ops@[end - 1]@);
        assert(ops.take(end as int).drop_last() =~= ops.take(end - 1));
        if lists(members, dag.ops[end - 1].node) {
            return end;
        }
        end -= 1;
    }
    end
}

/// What a survey of a scope from a group in it tells of each instruction: whether it depends on the group.
spec fn trailing(ops: Seq<InstructionModel>, members: Seq<usize>, i: int) -> bool {
    on_any(ops[i], parted(ops.take(i), members).held)
}

/// Survey a scope from a group in it, up to the group's last member: which instructions depend on the group, or
/// nothing if the group depends on one of them in turn.
fn survey(dag: &Circuit, members: &Vec<usize>, end: usize) -> (trails: Option<Vec<bool>>)
    requires
        end <= dag@.ops.len(),
    ensures
        match trails {
            None => parted(dag@.ops.take(end as int), members@).tangled,
            Some(flags) => {
                &&& !parted(dag@.ops.take(end as int), members@).tangled
                &&& flags@.len() == end
                &&& forall|i: int|
                    0 <= i < end ==> #[trigger] flags@[i] == trailing(dag@.ops, members@, i)
            },
        },
{
    let ghost ops = dag@.ops;
    let mut flags: Vec<bool> = Vec::new();
    let mut held_qubits = IndexSet::new();
    let mut held_clbits = IndexSet::new();
    let mut passed_qubits = IndexSet::new();
    let mut passed_clbits = IndexSet::new();
    let mut i: usize = 0;
    assert(ops.take(0) =~= Seq::<InstructionModel>::empty());
    while i < end
        invariant
            i <= end <= dag.ops.len(),
            ops == dag@.ops,
            !parted(ops.take(i as int), members@).tangled,
            parted(ops.take(i as int), members@).held == (held_qubits@, held_clbits@),
            parted(ops.take(i as int), members@).passed == (passed_qubits@, passed_clbits@),
            flags@.len() == i,
            forall|j: int| 0 <= j < i ==> #[trigger] flags@[j] == trailing(ops, members@, j),
        decreases end - i,
    {
        let inst = &dag.ops[i];
        proof {
            assert(ops[i as int] == inst@);
            assert(ops.take(i + 1).drop_last() =~= ops.take(i as int));
            assert(ops.take(i + 1).last() == inst@);
        }
        let trails = touches_any(inst, &held_qubits, &held_clbits);
        if lists(members, inst.node) {
            if touches_any(inst, &passed_qubits, &passed_clbits) {
                proof {
                    assert(parted(ops.take(i + 1), members@).tangled);
                    assert(ops.take(end as int).take(i + 1) =~= ops.take(i + 1));
                    lemma_stays_tangled(ops.take(end as int), members@, i + 1);
                }
                return None;
            }
            extend_set(&mut held_qubits, &inst.qubits);
            extend_set(&mut held_clbits, &inst.clbits);
        } else if trails {
            extend_set(&mut held_qubits, &inst.qubits);
            extend_set(&mut held_clbits, &inst.clbits);
            extend_set(&mut passed_qubits, &inst.qubits);
            extend_set(&mut passed_clbits, &inst.clbits);
        }
        flags.push(trails);
        i += 1;
    }
    Some(flags)
}

proof fn lemma_stays_tangled(ops: Seq<InstructionModel>, members: Seq<usize>, k: int)
    requires
        0 <= k <= ops.len(),
        parted(ops.take(k), members).tangled,
    ensures
        parted(ops, members).tangled,
    decreases ops.len(),
{
    if k == ops.len() {
        assert(ops.take(k) =~= ops);
    } else {
        assert(ops.drop_last().take(k) =~= ops.take(k));
        lemma_stays_tangled(ops.drop_last(), members, k);
    }
}

/// What a list of instructions is.
spec fn run_model(ops: Seq<Instruction>) -> Seq<InstructionModel> {
    ops.map_values(|inst: Instruction| inst@)
}

/// A list of instructions, last first.
fn turned(list: Vec<Instruction>) -> (turned: Vec<Instruction>)
    ensures
        turned@ == list@.reverse(),
{
    let ghost given = list@;
    let mut list = list;
    let mut turned: Vec<Instruction> = Vec::new();
    while list.len() > 0
        invariant
            list@.len() + turned@.len() == given.len(),
            list@ == given.take(list@.len() as int),
            turned@ == given.skip(list@.len() as int).reverse(),
        decreases list.len(),
    {
        let ghost left = list@;
        let ghost done = turned@;
        if let Some(inst) = list.pop() {
            assert(inst == given[left.len() - 1]);
            turned.push(inst);
            assert(list@ =~= given.take(list@.len() as int));
            assert(turned@ =~= given.skip(list@.len() as int).reverse());
        }
    }
    assert(given.skip(0) =~= given);
    turned
}

/// Contract one group into a single collector over its full span.
fn fuse(dag: &mut Circuit, group: &Group) -> (result: Result<(), SamplexError>)
    requires
        old(dag)@.wf(),
        group_sound(old(dag)@, group@),
    ensures
        match contracted(old(dag)@, group@) {
            Err(error) => result == Err::<(), SamplexError>(error) && final(dag)@ == old(dag)@,
            Ok(after) => result is Ok && final(dag)@ == after,
        },
        result is Ok ==> fused(old(dag)@, group@).wf(old(dag)@.num_qubits, old(dag)@.num_clbits),
{
    let ghost circuit = dag@;
    let ghost members = group@.members;
    let end = find_reach(dag, &group.members);
    let trails = match survey(dag, &group.members, end) {
        Some(trails) => trails,
        None => {
            return Err(SamplexError::MergeWouldCycle);
        },
    };
    let one = fused_instruction(dag, group);
    let mut ops: Vec<Instruction> = Vec::new();
    std::mem::swap(&mut ops, &mut dag.ops);
    let ghost given = ops@;
    let ghost model = circuit.ops;
    let count: usize = ops.len();
    assert(run_model(given) =~= model);
    let mut waiting = turned(ops);
    let mut ahead: Vec<Instruction> = Vec::new();
    let mut behind: Vec<Instruction> = Vec::new();
    let mut i: usize = 0;
    assert(model.take(0) =~= Seq::<InstructionModel>::empty());
    assert(run_model(ahead@) =~= Seq::<InstructionModel>::empty());
    assert(run_model(behind@) =~= Seq::<InstructionModel>::empty());
    while i < end
        invariant
            i <= end <= count,
            count == given.len(),
            model == run_model(given),
            members == group@.members,
            trails@.len() == end,
            forall|j: int| 0 <= j < end ==> #[trigger] trails@[j] == trailing(model, members, j),
            waiting@ == given.skip(i as int).reverse(),
            run_model(ahead@) == parted(model.take(i as int), members).ahead,
            run_model(behind@) == parted(model.take(i as int), members).behind,
        decreases end - i,
    {
        let ghost left = waiting@;
        proof {
            assert(model.take(i + 1).drop_last() =~= model.take(i as int));
            assert(model.take(i + 1).last() == model[i as int]);
            assert(left[left.len() - 1] == given[i as int]);
        }
        let ghost known_ahead = run_model(ahead@);
        let ghost known_behind = run_model(behind@);
        if let Some(inst) = waiting.pop() {
            assert(inst@ == model[i as int]);
            let ghost said = inst@;
            assert(trails@[i as int] == trailing(model, members, i as int));
            if !lists(&group.members, inst.node) {
                if trails[i] {
                    behind.push(inst);
                    assert(run_model(behind@) =~= known_behind.push(said));
                } else {
                    ahead.push(inst);
                    assert(run_model(ahead@) =~= known_ahead.push(said));
                }
            }
            assert(waiting@ =~= given.skip(i + 1).reverse());
        }
        i += 1;
    }
    let ghost before = run_model(ahead@);
    let ghost after = run_model(behind@);
    let ghost collector = one@;
    ahead.push(one);
    assert(run_model(ahead@) =~= before.push(collector));
    let ghost front = ahead@;
    let ghost back = behind@;
    ahead.append(&mut behind);
    assert(ahead@ =~= front + back);
    assert(run_model(ahead@) =~= before.push(collector) + after);
    let mut rest = turned(waiting);
    assert(rest@ =~= given.skip(end as int));
    let ghost tail = rest@;
    let ghost most = ahead@;
    ahead.append(&mut rest);
    assert(ahead@ =~= most + tail);
    assert(run_model(ahead@) =~= before.push(collector) + after + model.skip(end as int));
    dag.ops = ahead;
    proof {
        assert(dag@.ops =~= run_model(dag.ops@));
    }
    Ok(())
}

/// Whether every instruction that is in none of some groups is in a circuit as it was in another.
spec fn kept(before: CircuitModel, groups: Seq<GroupModel>, after: CircuitModel) -> bool {
    forall|node: usize| #[trigger]
        before.has(node) && !grouped_in(groups, node) ==> after.has(node) && after.get(node)
            == before.get(node)
}

/// A group is as sound of a circuit as of another that has its members as they were.
proof fn lemma_sound_of(before: CircuitModel, after: CircuitModel, group: GroupModel)
    requires
        group_sound(before, group),
        forall|k: int|
            0 <= k < group.members.len() ==> after.has(#[trigger] group.members[k]) && after.get(
                group.members[k],
            ) == before.get(group.members[k]),
    ensures
        group_sound(after, group),
{
    assert forall|qubit: usize| #[trigger] group.span.contains(qubit) <==> exists|k: int|
        0 <= k < group.members.len() && (#[trigger] after.get(
            group.members[k],
        )).qubits.contains(qubit) by {
        if group.span.contains(qubit) {
            let k = choose|k: int|
                0 <= k < group.members.len() && (#[trigger] before.get(
                    group.members[k],
                )).qubits.contains(qubit);
            assert(after.has(group.members[k]));
            assert(after.get(group.members[k]).qubits.contains(qubit));
        }
        if exists|k: int|
            0 <= k < group.members.len() && (#[trigger] after.get(
                group.members[k],
            )).qubits.contains(qubit) {
            let k = choose|k: int|
                0 <= k < group.members.len() && (#[trigger] after.get(
                    group.members[k],
                )).qubits.contains(qubit);
            assert(after.has(group.members[k]));
            assert(before.get(group.members[k]).qubits.contains(qubit));
        }
    }
}

proof fn lemma_fused_stops(circuit: CircuitModel, groups: Seq<GroupModel>, few: nat, many: nat)
    requires
        few <= many,
        fused_upto(circuit, groups, few).error is Some,
    ensures
        fused_upto(circuit, groups, many) == fused_upto(circuit, groups, few),
    decreases many - few,
{
    if few < many {
        lemma_fused_stops(circuit, groups, few, (many - 1) as nat);
    }
}

proof fn lemma_grouped_in_take(groups: Seq<GroupModel>, g: int)
    requires
        0 <= g < groups.len(),
    ensures
        forall|node: usize| #[trigger]
            grouped_in(groups.take(g + 1), node) <==> (grouped_in(groups.take(g), node)
                || groups[g].members.contains(node)),
{
    let few = groups.take(g);
    let more = groups.take(g + 1);
    assert forall|node: usize| #[trigger] grouped_in(more, node) <==> (grouped_in(few, node)
        || groups[g].members.contains(node)) by {
        if grouped_in(few, node) {
            let h = choose|h: int| 0 <= h < few.len() && (#[trigger] few[h]).members.contains(node);
            assert(more[h].members.contains(node));
        }
        assert(more[g] == groups[g]);
        if grouped_in(more, node) {
            let h = choose|h: int|
                0 <= h < more.len() && (#[trigger] more[h]).members.contains(node);
            if h < g {
                assert(few[h].members.contains(node));
            }
        }
    }
}

/// Contract every group of a scope's collectors.
fn fuse_siblings(dag: &mut Circuit) -> (result: Result<(), SamplexError>)
    requires
        old(dag)@.wf(),
        equipped(old(dag)@),
    ensures
        final(dag)@ == siblings_fused(old(dag)@).circuit,
        match siblings_fused(old(dag)@).error {
            Some(error) => result == Err::<(), SamplexError>(error),
            None => result is Ok,
        },
        final(dag)@.wf(),
        final(dag)@.num_qubits == old(dag)@.num_qubits,
        final(dag)@.num_clbits == old(dag)@.num_clbits,
        kept(old(dag)@, grouped(old(dag)@.num_qubits, old(dag)@.ops), final(dag)@),
        valid(old(dag)@) ==> valid(final(dag)@),
{
    let ghost circuit = dag@;
    let groups = group_collectors(dag);
    let ghost model = groups_model(groups@);
    proof {
        lemma_each_collector_in_one_group(circuit);
        assert(model.take(0) =~= Seq::<GroupModel>::empty());
    }
    let mut g: usize = 0;
    while g < groups.len()
        invariant
            g <= groups.len(),
            circuit == old(dag)@,
            circuit.wf(),
            model == groups_model(groups@),
            model == grouped(circuit.num_qubits, circuit.ops),
            each_once(model),
            forall|h: int| 0 <= h < model.len() ==> group_sound(circuit, #[trigger] model[h]),
            dag@.wf(),
            dag@.num_qubits == circuit.num_qubits,
            dag@.num_clbits == circuit.num_clbits,
            fused_upto(circuit, model, g as nat) == (Outcome { circuit: dag@, error: None }),
            kept(circuit, model.take(g as int), dag@),
            valid(circuit) ==> valid(dag@),
        decreases groups.len() - g,
    {
        let ghost group = model[g as int];
        let ghost before = dag@;
        proof {
            assert(group == groups@[g as int]@);
            lemma_grouped_in_take(model, g as int);
            assert forall|k: int| 0 <= k < group.members.len() implies before.has(
                #[trigger] group.members[k],
            ) && before.get(group.members[k]) == circuit.get(group.members[k]) by {
                let node = group.members[k];
                assert(model[g as int].members.contains(node));
                assert(circuit.has(node));
                assert(!grouped_in(model.take(g as int), node)) by {
                    if grouped_in(model.take(g as int), node) {
                        let few = model.take(g as int);
                        let h = choose|h: int|
                            0 <= h < few.len() && (#[trigger] few[h]).members.contains(node);
                        assert(model[h].members.contains(node));
                    }
                }
            }
            lemma_sound_of(circuit, before, group);
        }
        if groups[g].members.len() > 1 {
            match fuse(dag, &groups[g]) {
                Ok(_) => {
                    proof {
                        lemma_contracted(before, group);
                        if valid(circuit) {
                            lemma_contracted_stays_valid(before, group);
                        }
                    }
                },
                Err(error) => {
                    proof {
                        lemma_fused_stops(circuit, model, (g + 1) as nat, model.len());
                        lemma_kept_more(circuit, model, g as int, dag@);
                    }
                    return Err(error);
                },
            }
        }
        proof {
            assert forall|node: usize| #[trigger] circuit.has(node) && !grouped_in(
                model.take(g + 1),
                node,
            ) implies dag@.has(node) && dag@.get(node) == circuit.get(node) by {
                assert(!grouped_in(model.take(g as int), node));
                assert(before.has(node));
            }
        }
        g += 1;
    }
    assert(model.take(g as int) =~= model);
    Ok(())
}

proof fn lemma_kept_more(before: CircuitModel, groups: Seq<GroupModel>, g: int, after: CircuitModel)
    requires
        0 <= g <= groups.len(),
        kept(before, groups.take(g), after),
    ensures
        kept(before, groups, after),
{
    assert forall|node: usize| #[trigger] before.has(node) && !grouped_in(
        groups,
        node,
    ) implies after.has(node) && after.get(node) == before.get(node) by {
        let few = groups.take(g);
        if grouped_in(few, node) {
            let h = choose|h: int| 0 <= h < few.len() && (#[trigger] few[h]).members.contains(node);
            assert(groups[h].members.contains(node));
        }
    }
}

/// Replacing the body of a box by one as wide leaves a circuit well formed and the rest of it as it was.
proof fn lemma_with_body(circuit: CircuitModel, node: usize, body: CircuitModel)
    requires
        circuit.wf(),
        circuit.has(node),
        circuit.get(node).op.is_box(),
        body.wf(),
        body.num_qubits == circuit.get(node).qubits.len(),
        body.num_clbits == circuit.get(node).clbits.len(),
    ensures
        with_body(circuit, node, body).wf(),
        with_body(circuit, node, body).num_qubits == circuit.num_qubits,
        with_body(circuit, node, body).num_clbits == circuit.num_clbits,
        forall|other: usize| #[trigger]
            circuit.has(other) && other != node ==> with_body(circuit, node, body).has(other)
                && with_body(circuit, node, body).get(other) == circuit.get(other),
{
    let at = circuit.at(node);
    let after = with_body(circuit, node, body);
    assert(circuit.ops[at].node == node);
    assert(circuit.ops[at].wf(circuit.num_qubits, circuit.num_clbits));
    assert forall|i: int| 0 <= i < after.ops.len() implies (#[trigger] after.ops[i]).wf(
        after.num_qubits,
        after.num_clbits,
    ) && after.ops[i].node == circuit.ops[i].node by {
        assert(circuit.ops[i].wf(circuit.num_qubits, circuit.num_clbits));
        if i == at {
            assert(after.ops[i].blocks =~= seq![body]);
        }
    }
    assert forall|i: int, j: int| 0 <= i < j < after.ops.len() implies (#[trigger] after.ops[i]).node
        != (#[trigger] after.ops[j]).node by {
        assert(circuit.ops[i].node != circuit.ops[j].node);
    }
    assert(after.wf());
    assert forall|other: usize| #[trigger] circuit.has(other) && other != node implies after.has(other)
        && after.get(other) == circuit.get(other) by {
        let i = circuit.at(other);
        assert(circuit.ops[i].node == other);
        assert(after.ops[i] == circuit.ops[i]);
        lemma_get(after, other, i);
    }
}

proof fn lemma_bodies_stop(ops: Seq<InstructionModel>, circuit: CircuitModel, k: int)
    requires
        0 <= k <= ops.len(),
        bodies_merged(ops.take(k), circuit).error is Some,
    ensures
        bodies_merged(ops, circuit) == bodies_merged(ops.take(k), circuit),
    decreases ops.len() - k,
{
    if k == ops.len() {
        assert(ops.take(k) =~= ops);
    } else {
        assert(ops.take(k + 1).drop_last() =~= ops.take(k));
        lemma_bodies_stop(ops, circuit, k + 1);
    }
}

/// The content boxes of a scope that have one body each, by node number, and nothing for anything else.
fn list_bodies(dag: &Circuit) -> (bodies: Vec<Option<usize>>)
    ensures
        bodies@.len() == dag@.ops.len(),
        forall|i: int|
            0 <= i < dag@.ops.len() ==> #[trigger] bodies@[i] == (if dag@.ops[i].op.is_content_box()
                && dag@.ops[i].blocks.len() == 1 {
                Some(dag@.ops[i].node)
            } else {
                None
            }),
{
    let mut bodies: Vec<Option<usize>> = Vec::new();
    let mut i: usize = 0;
    while i < dag.ops.len()
        invariant
            i <= dag.ops.len(),
            bodies@.len() == i,
            forall|j: int|
                0 <= j < i ==> #[trigger] bodies@[j] == (if dag@.ops[j].op.is_content_box()
                    && dag@.ops[j].blocks.len() == 1 {
                    Some(dag@.ops[j].node)
                } else {
                    None
                }),
        decreases dag.ops.len() - i,
    {
        let inst = &dag.ops[i];
        assert(dag@.ops[i as int] == inst@);
        if is_box(inst) && !is_collector(inst) && inst.blocks.len() == 1 {
            bodies.push(Some(inst.node));
        } else {
            bodies.push(None);
        }
        i += 1;
    }
    bodies
}

/// Merge collectors within one scope, then within box bodies with fresh state, so that a nested scope's
/// collectors merge among themselves but never across the boundary.
fn merge_scope(dag: &mut Circuit) -> (result: Result<(), SamplexError>)
    requires
        old(dag)@.wf(),
        equipped(old(dag)@),
    ensures
        final(dag)@ == merged(old(dag)@).circuit,
        match merged(old(dag)@).error {
            Some(error) => result == Err::<(), SamplexError>(error),
            None => result is Ok,
        },
        final(dag)@.wf(),
        final(dag)@.num_qubits == old(dag)@.num_qubits,
        final(dag)@.num_clbits == old(dag)@.num_clbits,
        valid(old(dag)@) ==> valid(final(dag)@),
    decreases old(dag)@,
{
    let ghost circuit = dag@;
    let ghost ops = circuit.ops;
    let bodies = list_bodies(dag);
    fuse_siblings(dag)?;
    let ghost outer = dag@;
    let ghost groups = grouped(circuit.num_qubits, ops);
    proof {
        lemma_each_collector_in_one_group(circuit);
        assert forall|i: int| 0 <= i < ops.len() && (#[trigger] ops[i]).op.is_content_box() implies outer.has(
            ops[i].node,
        ) && outer.get(ops[i].node) == ops[i] by {
            lemma_get(circuit, ops[i].node, i);
            assert(!grouped_in(groups, ops[i].node)) by {
                if grouped_in(groups, ops[i].node) {
                    let j = choose|j: int|
                        0 <= j < ops.len() && (#[trigger] circuit.ops[j]).node == ops[i].node
                            && circuit.ops[j].op.is_collector();
                    lemma_get(circuit, ops[i].node, j);
                }
            }
        }
        assert(ops.take(0) =~= Seq::<InstructionModel>::empty());
    }
    let mut i: usize = 0;
    while i < bodies.len()
        invariant
            i <= bodies.len(),
            circuit == old(dag)@,
            circuit.wf(),
            equipped(circuit),
            ops == circuit.ops,
            bodies@.len() == ops.len(),
            forall|j: int|
                0 <= j < ops.len() ==> #[trigger] bodies@[j] == (if ops[j].op.is_content_box()
                    && ops[j].blocks.len() == 1 {
                    Some(ops[j].node)
                } else {
                    None
                }),
            siblings_fused(circuit) == (Outcome { circuit: outer, error: None }),
            bodies_merged(ops.take(i as int), outer) == (Outcome { circuit: dag@, error: None }),
            dag@.wf(),
            dag@.num_qubits == circuit.num_qubits,
            dag@.num_clbits == circuit.num_clbits,
            forall|j: int|
                i <= j < ops.len() && (#[trigger] ops[j]).op.is_content_box() ==> dag@.has(ops[j].node)
                    && dag@.get(ops[j].node) == ops[j],
            valid(circuit) ==> valid(dag@),
        decreases bodies.len() - i,
    {
        proof {
            assert(ops.take(i + 1).drop_last() =~= ops.take(i as int));
            assert(ops.take(i + 1).last() == ops[i as int]);
        }
        let ghost before = dag@;
        let ghost inst = ops[i as int];
        if let Some(node) = bodies[i] {
            proof {
                assert(equipped_at(circuit.ops[i as int]));
                assert(inst.wf(circuit.num_qubits, circuit.num_clbits));
                assert(before.has(inst.node) && before.get(inst.node) == inst);
                assert(decreases_to!(circuit => circuit.ops));
                assert(decreases_to!(circuit.ops => circuit.ops[i as int]));
                assert(decreases_to!(circuit.ops[i as int] => circuit.ops[i as int].blocks));
                assert(decreases_to!(circuit.ops[i as int].blocks => circuit.ops[i as int].blocks[0]));
            }
            let at = dag.position(node);
            let ghost old_inst = dag.ops@[at as int];
            assert(old_inst@ == inst);
            assert(old_inst@.blocks[0] == old_inst.blocks@[0]@);
            let merging = merge_scope(&mut dag.ops[at].blocks[0]);
            proof {
                let new_inst = dag.ops@[at as int];
                let inner = merged(inst.blocks[0]).circuit;
                assert(new_inst@.blocks =~= seq![inner]);
                assert(dag@.ops =~= with_body(before, node, inner).ops);
                lemma_with_body(before, node, inner);
                if valid(circuit) {
                    assert(valid_at(circuit.ops[i as int]));
                    lemma_with_body_stays_valid(before, node, inner);
                }
                assert forall|j: int| i + 1 <= j < ops.len() && (
                #[trigger] ops[j]).op.is_content_box() implies dag@.has(ops[j].node) && dag@.get(
                    ops[j].node,
                ) == ops[j] by {
                    assert(before.has(ops[j].node));
                    assert(circuit.ops[i as int].node != circuit.ops[j].node);
                }
            }
            if let Err(error) = merging {
                proof {
                    lemma_bodies_stop(ops, outer, i + 1);
                }
                return Err(error);
            }
        }
        i += 1;
    }
    assert(ops.take(i as int) =~= ops);
    Ok(())
}

/// Merge adjacent collectors throughout an emission circuit, in place.
///
/// Escapes come first, to a fixed point: taking one collector out of its box can leave the next level down as
/// its box's new head.
pub fn merge_collectors(dag: &mut Circuit) -> (result: Result<(), SamplexError>)
    requires
        old(dag)@.wf(),
        equipped(old(dag)@),
        run_size(old(dag)@.ops) <= usize::MAX,
    ensures
        final(dag)@ == collectors_merged(old(dag)@).circuit,
        match collectors_merged(old(dag)@).error {
            Some(error) => result == Err::<(), SamplexError>(error),
            None => result is Ok,
        },
        final(dag)@.wf(),
        valid(old(dag)@) ==> valid(final(dag)@),
{
    proof {
        lemma_settled_is_a_fixed_point(dag@);
        if valid(dag@) {
            lemma_escapes_keep_valid(dag@);
        }
    }
    escape_all(dag)?;
    merge_scope(dag)
}

// --- What merging keeps ---------------------------------------------------------------------------

/// Whether two instructions are on a common wire.
pub open spec fn share_a_wire(one: InstructionModel, other: InstructionModel) -> bool {
    on_any(other, (one.qubits.to_set(), one.clbits.to_set()))
}

/// Which instruction stands for another once a group is contracted: the group's collector for its members, and
/// every other for itself.
pub open spec fn stand_in(group: GroupModel, node: usize) -> usize {
    if group.members.contains(node) {
        group.members[0]
    } else {
        node
    }
}

proof fn lemma_parting_grows(ops: Seq<InstructionModel>, members: Seq<usize>, i: int, j: int)
    requires
        0 <= i <= j <= ops.len(),
    ensures
        ({
            let few = parted(ops.take(i), members);
            let more = parted(ops.take(j), members);
            &&& few.ahead.len() <= more.ahead.len()
            &&& few.ahead == more.ahead.take(few.ahead.len() as int)
            &&& few.behind.len() <= more.behind.len()
            &&& few.behind == more.behind.take(few.behind.len() as int)
            &&& few.held.0.subset_of(more.held.0)
            &&& few.held.1.subset_of(more.held.1)
            &&& few.passed.0.subset_of(more.passed.0)
            &&& few.passed.1.subset_of(more.passed.1)
            &&& few.tangled ==> more.tangled
        }),
    decreases j - i,
{
    let few = parted(ops.take(i), members);
    let more = parted(ops.take(j), members);
    if i == j {
        assert(few.ahead =~= more.ahead.take(few.ahead.len() as int));
        assert(few.behind =~= more.behind.take(few.behind.len() as int));
    } else {
        lemma_parting_grows(ops, members, i, j - 1);
        let most = parted(ops.take(j - 1), members);
        assert(ops.take(j).drop_last() =~= ops.take(j - 1));
        assert(few.ahead =~= more.ahead.take(few.ahead.len() as int));
        assert(few.behind =~= more.behind.take(few.behind.len() as int));
    }
}

/// Where an instruction ahead of the group, or behind it, comes among those.
proof fn lemma_parting_place(ops: Seq<InstructionModel>, members: Seq<usize>, i: int)
    requires
        0 <= i < ops.len(),
        !members.contains(ops[i].node),
    ensures
        ({
            let before = parted(ops.take(i), members);
            let after = parted(ops, members);
            if on_any(ops[i], before.held) {
                &&& before.behind.len() < after.behind.len()
                &&& after.behind[before.behind.len() as int] == ops[i]
                &&& before.behind.len() < parted(ops.take(i + 1), members).behind.len()
                &&& ops[i].qubits.to_set().subset_of(parted(ops.take(i + 1), members).held.0)
                &&& ops[i].clbits.to_set().subset_of(parted(ops.take(i + 1), members).held.1)
                &&& ops[i].qubits.to_set().subset_of(parted(ops.take(i + 1), members).passed.0)
                &&& ops[i].clbits.to_set().subset_of(parted(ops.take(i + 1), members).passed.1)
            } else {
                &&& before.ahead.len() < after.ahead.len()
                &&& after.ahead[before.ahead.len() as int] == ops[i]
                &&& before.ahead.len() < parted(ops.take(i + 1), members).ahead.len()
            }
        }),
{
    let before = parted(ops.take(i), members);
    let next = parted(ops.take(i + 1), members);
    let after = parted(ops, members);
    assert(ops.take(i + 1).drop_last() =~= ops.take(i));
    assert(ops.take(i + 1).last() == ops[i]);
    lemma_parting_grows(ops, members, i + 1, ops.len() as int);
    assert(ops.take(ops.len() as int) =~= ops);
    if on_any(ops[i], before.held) {
        assert(next.behind[before.behind.len() as int] == ops[i]);
        assert(after.behind.take(next.behind.len() as int)[before.behind.len() as int] == ops[i]);
    } else {
        assert(next.ahead[before.ahead.len() as int] == ops[i]);
        assert(after.ahead.take(next.ahead.len() as int)[before.ahead.len() as int] == ops[i]);
    }
}

proof fn lemma_shared_held(
    one: InstructionModel,
    other: InstructionModel,
    wires: (Set<usize>, Set<usize>),
)
    requires
        share_a_wire(one, other),
        one.qubits.to_set().subset_of(wires.0),
        one.clbits.to_set().subset_of(wires.1),
    ensures
        on_any(other, wires),
{
    if exists|k: int|
        0 <= k < other.qubits.len() && one.qubits.to_set().contains(#[trigger] other.qubits[k]) {
        let k = choose|k: int|
            0 <= k < other.qubits.len() && one.qubits.to_set().contains(#[trigger] other.qubits[k]);
        assert(wires.0.contains(other.qubits[k]));
    } else {
        let k = choose|k: int|
            0 <= k < other.clbits.len() && one.clbits.to_set().contains(#[trigger] other.clbits[k]);
        assert(wires.1.contains(other.clbits[k]));
    }
}

/// Contracting a group reorders nothing on any wire: of two instructions on a common wire, what stands for the
/// earlier does not come after what stands for the later.
pub proof fn lemma_contraction_keeps_wire_order(
    circuit: CircuitModel,
    group: GroupModel,
    i: int,
    j: int,
)
    requires
        circuit.wf(),
        group.members.len() > 0,
        fused(circuit, group).wf(circuit.num_qubits, circuit.num_clbits),
        contracted(circuit, group) is Ok,
        0 <= i < j < circuit.ops.len(),
        share_a_wire(circuit.ops[i], circuit.ops[j]),
    ensures
        ({
            let after = contracted(circuit, group)->Ok_0;
            let one = stand_in(group, circuit.ops[i].node);
            let other = stand_in(group, circuit.ops[j].node);
            &&& after.has(one)
            &&& after.has(other)
            &&& after.at(one) <= after.at(other)
            &&& one != other ==> after.at(one) < after.at(other)
        }),
{
    let members = group.members;
    let ops = circuit.ops;
    let end = reach(ops, members) as int;
    let run = ops.take(end);
    let parting = parted(run, members);
    let after = contracted(circuit, group)->Ok_0;
    let cut = parting.ahead.len() as int;
    lemma_reach(ops, members);
    lemma_contracted(circuit, group);
    assert(after.ops[cut] == fused(circuit, group));
    lemma_get(after, members[0], cut);
    let a = place_after(circuit, group, i);
    let b = place_after(circuit, group, j);
    lemma_place_after(circuit, group, i);
    lemma_place_after(circuit, group, j);
    if i < end && !members.contains(ops[i].node) {
        lemma_parting_place(run, members, i);
        assert(run[i] == ops[i]);
    }
    if j < end {
        assert(run[j] == ops[j]);
        if !members.contains(ops[j].node) {
            lemma_parting_place(run, members, j);
        }
        lemma_parting_grows(run, members, i + 1, j);
        assert(run.take(i + 1).drop_last() =~= run.take(i));
        assert(run.take(i + 1).last() == ops[i]);
        assert(run.take(j + 1).drop_last() =~= run.take(j));
        assert(run.take(j + 1).last() == ops[j]);
        let seen = parted(run.take(j), members);
        if members.contains(ops[i].node) || on_any(ops[i], parted(run.take(i), members).held) {
            lemma_shared_held(ops[i], ops[j], seen.held);
        }
        if !members.contains(ops[i].node) && on_any(ops[i], parted(run.take(i), members).held)
            && members.contains(ops[j].node) {
            lemma_shared_held(ops[i], ops[j], seen.passed);
            assert(parted(run.take(j + 1), members).tangled);
            lemma_stays_tangled(run, members, j + 1);
            assert(false);
        }
    }
}

/// Where what stands for an instruction comes once a group is contracted.
spec fn place_after(circuit: CircuitModel, group: GroupModel, i: int) -> int {
    let members = group.members;
    let end = reach(circuit.ops, members) as int;
    let run = circuit.ops.take(end);
    let parting = parted(run, members);
    let before = parted(run.take(i), members);
    if members.contains(circuit.ops[i].node) {
        parting.ahead.len() as int
    } else if i >= end {
        parting.ahead.len() as int + 1 + parting.behind.len() + (i - end)
    } else if on_any(circuit.ops[i], before.held) {
        parting.ahead.len() as int + 1 + before.behind.len()
    } else {
        before.ahead.len() as int
    }
}

proof fn lemma_place_after(circuit: CircuitModel, group: GroupModel, i: int)
    requires
        circuit.wf(),
        group.members.len() > 0,
        fused(circuit, group).wf(circuit.num_qubits, circuit.num_clbits),
        contracted(circuit, group) is Ok,
        0 <= i < circuit.ops.len(),
    ensures
        ({
            let after = contracted(circuit, group)->Ok_0;
            let node = stand_in(group, circuit.ops[i].node);
            after.has(node) && after.at(node) == place_after(circuit, group, i)
        }),
{
    let members = group.members;
    let end = reach(circuit.ops, members) as int;
    let run = circuit.ops.take(end);
    let parting = parted(run, members);
    let after = contracted(circuit, group)->Ok_0;
    let cut = parting.ahead.len() as int;
    let place = place_after(circuit, group, i);
    lemma_reach(circuit.ops, members);
    lemma_contracted(circuit, group);
    let node = stand_in(group, circuit.ops[i].node);
    if members.contains(circuit.ops[i].node) {
        assert(after.ops[cut] == fused(circuit, group));
    } else if i >= end {
        assert(after.ops[place] == circuit.ops.skip(end)[i - end]);
    } else {
        assert(run[i] == circuit.ops[i]);
        lemma_parting_place(run, members, i);
        let before = parted(run.take(i), members);
        if on_any(circuit.ops[i], before.held) {
            assert(after.ops[place] == parting.behind[before.behind.len() as int]);
        } else {
            assert(after.ops[place] == parting.ahead[before.ahead.len() as int]);
        }
    }
    lemma_get(after, node, place);
}

/// Collectors fuse only with collectors that synthesize the same way: every member names first what the group's
/// first member names in every part, where there is more than one.
pub proof fn lemma_members_synthesize_alike(circuit: CircuitModel, g: int, k: int)
    requires
        circuit.wf(),
        equipped(circuit),
        0 <= g < grouped(circuit.num_qubits, circuit.ops).len(),
        0 <= k < grouped(circuit.num_qubits, circuit.ops)[g].members.len(),
    ensures
        ({
            let group = grouped(circuit.num_qubits, circuit.ops)[g];
            let collect = circuit.get(group.members[k]).op.collect();
            &&& collect is Some
            &&& collect->Some_0.parts[0].synthesizer == group.parts[0].synthesizer
            &&& group.members.len() > 1 ==> forall|p: int|
                0 <= p < group.parts.len() ==> (#[trigger] group.parts[p]).synthesizer
                    == group.parts[0].synthesizer
        }),
{
    let count = circuit.ops.len() as int;
    assert(circuit.ops.take(count) =~= circuit.ops);
    lemma_alike_upto(circuit, count, g, k);
}

proof fn lemma_alike_upto(circuit: CircuitModel, count: int, g: int, k: int)
    requires
        circuit.wf(),
        equipped(circuit),
        0 <= count <= circuit.ops.len(),
        0 <= g < grouped(circuit.num_qubits, circuit.ops.take(count)).len(),
        0 <= k < grouped(circuit.num_qubits, circuit.ops.take(count))[g].members.len(),
    ensures
        ({
            let group = grouped(circuit.num_qubits, circuit.ops.take(count))[g];
            let collect = circuit.get(group.members[k]).op.collect();
            &&& collect is Some
            &&& collect->Some_0.parts[0].synthesizer == group.parts[0].synthesizer
            &&& group.members.len() > 1 ==> forall|p: int|
                0 <= p < group.parts.len() ==> (#[trigger] group.parts[p]).synthesizer
                    == group.parts[0].synthesizer
        }),
    decreases count,
{
    if count > 0 {
        let i = count - 1;
        let groups = grouped(circuit.num_qubits, circuit.ops.take(i));
        let after = grouped(circuit.num_qubits, circuit.ops.take(count));
        let inst = circuit.ops[i];
        assert(circuit.ops.take(count).drop_last() =~= circuit.ops.take(i));
        assert(circuit.ops.take(count).last() == inst);
        lemma_get(circuit, inst.node, i);
        lemma_grouped(circuit, i);
        if g < groups.len() {
            assert(group_sound(circuit, groups[g]));
        }
        match inst.op.collect() {
            None => {
                lemma_alike_upto(circuit, i, g, k);
            },
            Some(collect) => {
                let home = first_home(groups, inst.qubits, collect.parts[0].synthesizer, 0);
                lemma_first_home(groups, inst.qubits, collect.parts[0].synthesizer, 0);
                if home < groups.len() {
                    if g != home {
                        lemma_alike_upto(circuit, i, g, k);
                    } else {
                        assert(groups[g].admits(inst.qubits, collect.parts[0].synthesizer));
                        assert(groups[g].parts[0].synthesizer == collect.parts[0].synthesizer);
                        if k < groups[g].members.len() {
                            lemma_alike_upto(circuit, i, g, k);
                            assert(after[g].members[k] == groups[g].members[k]);
                        } else {
                            assert(after[g].members[k] == inst.node);
                        }
                    }
                } else if g < groups.len() {
                    lemma_alike_upto(circuit, i, g, k);
                } else {
                    assert(after[g] == opened(circuit.num_qubits, inst, collect));
                    assert(after[g].members[k] == inst.node);
                }
            },
        }
    }
}

// --- Validity ------------------------------------------------------------------------------------

/// The members' bodies one after another are gates and emissions.
proof fn lemma_merged_body_holds_steps(
    circuit: CircuitModel,
    members: Seq<usize>,
    frame: Seq<usize>,
    num_clbits: nat,
)
    requires
        circuit.wf(),
        valid(circuit),
        forall|k: int|
            0 <= k < members.len() ==> circuit.has(#[trigger] members[k]) && circuit.get(
                members[k],
            ).op.is_collector(),
    ensures
        holds_steps(merged_body(circuit, members, frame, num_clbits).ops),
    decreases members.len(),
{
    if members.len() > 0 {
        let front = members.drop_last();
        assert forall|k: int| 0 <= k < front.len() implies circuit.has(#[trigger] front[k])
            && circuit.get(front[k]).op.is_collector() by {
            assert(members[k] == front[k]);
        }
        lemma_merged_body_holds_steps(circuit, front, frame, num_clbits);
        assert(members[members.len() - 1] == members.last());
        let inst = circuit.get(members.last());
        assert(valid_at(circuit.ops[circuit.at(members.last())]));
        lemma_contributed_holds_steps(
            merged_body(circuit, front, frame, num_clbits),
            single_body(inst),
            inst.qubits,
            frame,
        );
    }
}

/// The collector a group of a valid circuit fuses into can stand in a valid circuit.
proof fn lemma_fused_is_valid(circuit: CircuitModel, group: GroupModel)
    requires
        circuit.wf(),
        circuit.num_qubits <= usize::MAX,
        valid(circuit),
        group_sound(circuit, group),
        group.members.len() > 1,
    ensures
        valid_at(fused(circuit, group)),
{
    let one = fused(circuit, group);
    let frame = ascending(group.span, circuit.num_qubits);
    let clbits = ascending(clbits_of(circuit, group.members), circuit.num_clbits);
    lemma_ascending(group.span, circuit.num_qubits);
    lemma_span_on_frame(circuit, group);
    let places = group.subsystems.map_values(|subsystem: Seq<usize>| places_in(frame, subsystem));
    assert(groups_below(frame.len(), places)) by {
        assert forall|s: int, k: int| 0 <= s < places.len() && 0 <= k < places[s].len() implies (
        #[trigger] places[s][k]) < frame.len() by {
            assert(on_frame(frame, group.subsystems[s]));
            lemma_places(frame, group.subsystems[s]);
        }
    }
    lemma_coarsening_is_a_partition(frame.len(), places);
    let collect = merged_collect(group, frame);
    assert(collect_box(collect).collect() == Some(collect));
    let qubit = choose|qubit: usize| #[trigger] group.span.contains(qubit);
    let m = choose|m: int|
        0 <= m < group.members.len() && (#[trigger] circuit.get(group.members[m])).qubits.contains(
            qubit,
        );
    let inst = circuit.get(group.members[m]);
    assert(circuit.has(group.members[m]));
    assert(inst.wf(circuit.num_qubits, circuit.num_clbits));
    assert(inst.qubits[inst.qubits.index_of(qubit)] == qubit);
    assert(frame.contains(qubit));
    assert(collect.partition.len() > 0) by {
        if collect.partition.len() == 0 {
            assert(total(collect.partition) == 0);
            assert(frame[frame.index_of(qubit)] == qubit);
        }
    }
    lemma_merged_body_holds_steps(circuit, group.members, frame, clbits.len());
    assert(one.blocks[0] == merged_body(circuit, group.members, frame, clbits.len()));
}

/// What a run parts into is of the run.
proof fn lemma_parted_within(ops: Seq<InstructionModel>, members: Seq<usize>)
    ensures
        forall|k: int|
            0 <= k < parted(ops, members).ahead.len() ==> ops.contains(
                #[trigger] parted(ops, members).ahead[k],
            ),
        forall|k: int|
            0 <= k < parted(ops, members).behind.len() ==> ops.contains(
                #[trigger] parted(ops, members).behind[k],
            ),
    decreases ops.len(),
{
    if ops.len() > 0 {
        let front = ops.drop_last();
        lemma_parted_within(front, members);
        assert(ops[ops.len() - 1] == ops.last());
        assert forall|inst: InstructionModel| #[trigger] front.contains(inst) implies ops.contains(inst) by {
            assert(ops[front.index_of(inst)] == inst);
        }
        let before = parted(front, members);
        let parting = parted(ops, members);
        assert forall|k: int| 0 <= k < parting.ahead.len() implies ops.contains(
            #[trigger] parting.ahead[k],
        ) by {
            if k < before.ahead.len() {
                assert(parting.ahead[k] == before.ahead[k]);
                assert(front.contains(before.ahead[k]));
            }
        }
        assert forall|k: int| 0 <= k < parting.behind.len() implies ops.contains(
            #[trigger] parting.behind[k],
        ) by {
            if k < before.behind.len() {
                assert(parting.behind[k] == before.behind[k]);
                assert(front.contains(before.behind[k]));
            }
        }
    }
}

/// Contracting a group keeps a circuit valid.
proof fn lemma_contracted_stays_valid(circuit: CircuitModel, group: GroupModel)
    requires
        circuit.wf(),
        circuit.num_qubits <= usize::MAX,
        valid(circuit),
        group_sound(circuit, group),
        group.members.len() > 1,
        contracted(circuit, group) is Ok,
    ensures
        valid(contracted(circuit, group)->Ok_0),
{
    let after = contracted(circuit, group)->Ok_0;
    let end = reach(circuit.ops, group.members) as int;
    let run = circuit.ops.take(end);
    let parting = parted(run, group.members);
    let one = fused(circuit, group);
    lemma_reach(circuit.ops, group.members);
    lemma_fused_is_valid(circuit, group);
    lemma_parted_within(run, group.members);
    let cut = parting.ahead.len() as int;
    let mixed = cut + 1 + parting.behind.len();
    assert forall|i: int| 0 <= i < after.ops.len() implies valid_at(#[trigger] after.ops[i]) by {
        if i < cut {
            assert(after.ops[i] == parting.ahead[i]);
            let j = run.index_of(parting.ahead[i]);
            assert(run[j] == parting.ahead[i]);
            assert(valid_at(circuit.ops[j]));
        } else if i == cut {
            assert(after.ops[i] == one);
        } else if i < mixed {
            assert(after.ops[i] == parting.behind[i - cut - 1]);
            let j = run.index_of(parting.behind[i - cut - 1]);
            assert(run[j] == parting.behind[i - cut - 1]);
            assert(valid_at(circuit.ops[j]));
        } else {
            assert(after.ops[i] == circuit.ops[i - mixed + end]);
            assert(valid_at(circuit.ops[i - mixed + end]));
        }
    }
}

/// Replacing the body of a content box by a valid one keeps a circuit valid.
proof fn lemma_with_body_stays_valid(circuit: CircuitModel, node: usize, body: CircuitModel)
    requires
        circuit.wf(),
        valid(circuit),
        circuit.has(node),
        circuit.get(node).op.is_content_box(),
        valid(body),
    ensures
        valid(with_body(circuit, node, body)),
{
    let after = with_body(circuit, node, body);
    assert forall|i: int| 0 <= i < after.ops.len() implies valid_at(#[trigger] after.ops[i]) by {
        assert(valid_at(circuit.ops[i]));
        if i == circuit.at(node) {
            assert(after.ops[i].blocks[0] == body);
        }
    }
}

// --- Boxes in a row -------------------------------------------------------------------------------

/// Whether an instruction is a collector on exactly some wires that synthesizes every part one way.
pub open spec fn layer_on(
    inst: InstructionModel,
    wires: Set<usize>,
    synthesizer: SynthesizerType,
) -> bool {
    &&& inst.op.collect() matches Some(collect) && collect.all_synthesize(synthesizer)
    &&& inst.qubits.to_set() == wires
}

/// Whether what a run holds from one cut up to the next is one twirled box on some wires: a collector on
/// either edge, and between them a content box on those wires and no other collector.
pub open spec fn twirled_box(
    ops: Seq<InstructionModel>,
    cuts: Seq<int>,
    k: int,
    wires: Set<usize>,
    synthesizer: SynthesizerType,
) -> bool {
    let from = cuts[k];
    let to = cuts[k + 1];
    &&& 0 <= from
    &&& from + 3 <= to <= ops.len()
    &&& layer_on(ops[from], wires, synthesizer)
    &&& layer_on(ops[to - 1], wires, synthesizer)
    &&& forall|i: int| from < i < to - 1 ==> !(#[trigger] ops[i]).op.is_collector()
    &&& exists|i: int|
        from < i < to - 1 && (#[trigger] ops[i]).op.is_content_box() && ops[i].qubits.to_set()
            == wires
}

/// Whether a run is twirled boxes in a row, all on the same wires and with the same synthesizer. The cuts are
/// where each box begins, and the end of the run.
pub open spec fn boxes_in_a_row(
    ops: Seq<InstructionModel>,
    cuts: Seq<int>,
    wires: Set<usize>,
    synthesizer: SynthesizerType,
) -> bool {
    &&& cuts.len() > 1
    &&& cuts[0] == 0
    &&& cuts.last() == ops.len()
    &&& forall|k: int|
        0 <= k < cuts.len() - 1 ==> #[trigger] twirled_box(ops, cuts, k, wires, synthesizer)
    &&& exists|wire: usize| #[trigger] wires.contains(wire)
}

/// Whether a position is between the two collectors of a box in a row.
pub open spec fn inside_box(cuts: Seq<int>, k: int, i: int) -> bool {
    0 <= k < cuts.len() - 1 && cuts[k] < i < cuts[k + 1] - 1
}

/// Whether the collector layer before a box in a row, or after the last one, stands where it does once every
/// two that met are one.
pub open spec fn layer_at(
    ops: Seq<InstructionModel>,
    cuts: Seq<int>,
    k: int,
    wires: Set<usize>,
    synthesizer: SynthesizerType,
) -> bool {
    layer_on(ops[cuts[k] - k], wires, synthesizer)
}

/// Whether one run is another, of boxes in a row, with one collector left of every two that met: a layer before
/// each box and one after the last, and between two layers what was in that box, in order.
pub open spec fn row_shared(
    before: Seq<InstructionModel>,
    after: Seq<InstructionModel>,
    cuts: Seq<int>,
    wires: Set<usize>,
    synthesizer: SynthesizerType,
) -> bool {
    &&& after.len() == before.len() - (cuts.len() - 2)
    &&& forall|k: int|
        0 <= k < cuts.len() ==> #[trigger] layer_at(after, cuts, k, wires, synthesizer)
    &&& forall|k: int, i: int| #[trigger]
        inside_box(cuts, k, i) ==> same_outline(before[i], after[i - k])
}

/// Whether a collector on some wires cannot join a group.
spec fn shut(group: GroupModel, wires: Set<usize>) -> bool {
    exists|wire: usize| #[trigger] wires.contains(wire) && !group.frontier.contains(wire)
}

/// What a group of a row's collectors is: the first collector alone, or the two that meet before a box.
spec fn row_group(
    ops: Seq<InstructionModel>,
    cuts: Seq<int>,
    g: int,
    group: GroupModel,
    wires: Set<usize>,
    synthesizer: SynthesizerType,
) -> bool {
    &&& group.members == if g == 0 {
        seq![ops[0].node]
    } else {
        seq![ops[cuts[g] - 1].node, ops[cuts[g]].node]
    }
    &&& group.span == wires
    &&& group.parts.len() > 0
    &&& forall|p: int|
        0 <= p < group.parts.len() ==> (#[trigger] group.parts[p]).synthesizer == synthesizer
}

/// A run without collectors takes wires off every frontier and leaves the groups as they are otherwise.
proof fn lemma_no_collectors_release(
    num_qubits: nat,
    ops: Seq<InstructionModel>,
    from: int,
    to: int,
)
    requires
        0 <= from <= to <= ops.len(),
        forall|i: int| from <= i < to ==> !(#[trigger] ops[i]).op.is_collector(),
    ensures
        ({
            let before = grouped(num_qubits, ops.take(from));
            let after = grouped(num_qubits, ops.take(to));
            &&& after.len() == before.len()
            &&& forall|g: int|
                0 <= g < before.len() ==> #[trigger] after[g] == (GroupModel {
                    frontier: after[g].frontier,
                    ..before[g]
                }) && after[g].frontier.subset_of(before[g].frontier)
            &&& forall|g: int, i: int, wire: usize|
                #![trigger after[g], ops[i].qubits.contains(wire)]
                0 <= g < before.len() && from <= i < to && ops[i].qubits.contains(wire)
                    ==> !after[g].frontier.contains(wire)
        }),
    decreases to - from,
{
    if from < to {
        lemma_no_collectors_release(num_qubits, ops, from, to - 1);
        let inst = ops[to - 1];
        assert(ops.take(to).drop_last() =~= ops.take(to - 1));
        assert(ops.take(to).last() == inst);
        let most = grouped(num_qubits, ops.take(to - 1));
        let before = grouped(num_qubits, ops.take(from));
        let after = grouped(num_qubits, ops.take(to));
        assert(after == released(most, inst.qubits));
        assert forall|g: int, i: int, wire: usize|
            #![trigger after[g], ops[i].qubits.contains(wire)]
            0 <= g < before.len() && from <= i < to && ops[i].qubits.contains(
                wire,
            ) implies !after[g].frontier.contains(wire) by {
            assert(after[g] == most[g].without(inst.qubits));
            if i < to - 1 {
                assert(!most[g].frontier.contains(wire));
            } else {
                assert(inst.qubits.to_set().contains(wire));
            }
        }
        assert forall|g: int| 0 <= g < before.len() implies #[trigger] after[g] == (GroupModel {
            frontier: after[g].frontier,
            ..before[g]
        }) && after[g].frontier.subset_of(before[g].frontier) by {
            assert(after[g] == most[g].without(inst.qubits));
            assert(most[g].frontier.subset_of(before[g].frontier));
        }
    }
}

/// The groups once the first collector of a box in a row is taken: two collectors that met are one group, and
/// no earlier group can take another collector.
proof fn lemma_row_opened(
    circuit: CircuitModel,
    cuts: Seq<int>,
    wires: Set<usize>,
    synthesizer: SynthesizerType,
    k: int,
)
    requires
        circuit.wf(),
        equipped(circuit),
        boxes_in_a_row(circuit.ops, cuts, wires, synthesizer),
        0 <= k < cuts.len() - 1,
    ensures
        ({
            let groups = grouped(circuit.num_qubits, circuit.ops.take(cuts[k] + 1));
            &&& groups.len() == k + 1
            &&& forall|g: int|
                0 <= g <= k ==> row_group(
                    circuit.ops,
                    cuts,
                    g,
                    #[trigger] groups[g],
                    wires,
                    synthesizer,
                )
            &&& forall|g: int| 0 <= g < k ==> shut(#[trigger] groups[g], wires)
        }),
    decreases k, 1nat,
{
    let ops = circuit.ops;
    assert(twirled_box(ops, cuts, k, wires, synthesizer));
    let inst = ops[cuts[k]];
    let collect = inst.op.collect()->Some_0;
    assert(equipped_at(inst));
    let run = ops.take(cuts[k] + 1);
    assert(run.drop_last() =~= ops.take(cuts[k]));
    assert(run.last() == inst);
    let groups = grouped(circuit.num_qubits, ops.take(cuts[k]));
    let after = grouped(circuit.num_qubits, run);
    let home = first_home(groups, inst.qubits, collect.parts[0].synthesizer, 0);
    assert(collect.parts[0].synthesizer == synthesizer);
    if k == 0 {
        assert(ops.take(0) =~= Seq::<InstructionModel>::empty());
        assert(groups =~= Seq::<GroupModel>::empty());
        assert(after.len() == 1);
        assert(after[0] == opened(circuit.num_qubits, inst, collect));
        assert(row_group(ops, cuts, 0, after[0], wires, synthesizer));
    } else {
        lemma_row_closed(circuit, cuts, wires, synthesizer, k);
        lemma_first_home(groups, inst.qubits, synthesizer, 0);
        assert forall|g: int| 0 <= g < k implies !(#[trigger] groups[g]).admits(
            inst.qubits,
            synthesizer,
        ) by {
            assert(shut(groups[g], wires));
            let wire = choose|wire: usize| #[trigger]
                wires.contains(wire) && !groups[g].frontier.contains(wire);
            assert(inst.qubits.to_set().contains(wire));
            let w = inst.qubits.index_of(wire);
            assert(inst.qubits[w] == wire);
        }
        assert(groups[k].admits(inst.qubits, synthesizer)) by {
            assert(inst.wf(circuit.num_qubits, circuit.num_clbits));
            let wire = choose|wire: usize| #[trigger] wires.contains(wire);
            assert(inst.qubits.to_set().contains(wire));
            let w = inst.qubits.index_of(wire);
            assert(inst.qubits[w] == wire);
        }
        assert(home == k);
        assert(after[k] == groups[k].joined(inst, collect));
        assert(after[k].span =~= wires);
        assert(after[k].members =~= seq![ops[cuts[k] - 1].node, ops[cuts[k]].node]);
        assert forall|g: int| 0 <= g < k implies after[g] == groups[g] by {}
        assert forall|g: int| 0 <= g <= k implies row_group(
            ops,
            cuts,
            g,
            #[trigger] after[g],
            wires,
            synthesizer,
        ) by {
            if g < k {
                assert(after[g] == groups[g]);
            }
        }
        assert forall|g: int| 0 <= g < k implies shut(#[trigger] after[g], wires) by {
            assert(after[g] == groups[g]);
        }
    }
}

/// The groups once the last collector of a box in a row is taken: it opens a group of its own, and no earlier
/// group can take another collector.
proof fn lemma_row_closed(
    circuit: CircuitModel,
    cuts: Seq<int>,
    wires: Set<usize>,
    synthesizer: SynthesizerType,
    k: int,
)
    requires
        circuit.wf(),
        equipped(circuit),
        boxes_in_a_row(circuit.ops, cuts, wires, synthesizer),
        0 < k < cuts.len(),
    ensures
        ({
            let groups = grouped(circuit.num_qubits, circuit.ops.take(cuts[k]));
            let last = circuit.ops[cuts[k] - 1];
            &&& groups.len() == k + 1
            &&& forall|g: int|
                0 <= g < k ==> row_group(
                    circuit.ops,
                    cuts,
                    g,
                    #[trigger] groups[g],
                    wires,
                    synthesizer,
                ) && shut(groups[g], wires)
            &&& groups[k] == opened(circuit.num_qubits, last, last.op.collect()->Some_0)
            &&& groups[k].span == wires
            &&& groups[k].parts.len() > 0
            &&& forall|p: int|
                0 <= p < groups[k].parts.len() ==> (#[trigger] groups[k].parts[p]).synthesizer
                    == synthesizer
        }),
    decreases k, 0nat,
{
    let ops = circuit.ops;
    assert(twirled_box(ops, cuts, k - 1, wires, synthesizer));
    let from = cuts[k - 1] + 1;
    let to = cuts[k] - 1;
    lemma_row_opened(circuit, cuts, wires, synthesizer, k - 1);
    lemma_no_collectors_release(circuit.num_qubits, ops, from, to);
    let first = grouped(circuit.num_qubits, ops.take(from));
    let groups = grouped(circuit.num_qubits, ops.take(to));
    let after = grouped(circuit.num_qubits, ops.take(cuts[k]));
    let inst = ops[to];
    let collect = inst.op.collect()->Some_0;
    assert(equipped_at(inst));
    assert(ops.take(cuts[k]).drop_last() =~= ops.take(to));
    assert(ops.take(cuts[k]).last() == inst);
    assert(collect.parts[0].synthesizer == synthesizer);
    let wire = choose|wire: usize| #[trigger] wires.contains(wire);
    let at = choose|i: int|
        from - 1 < i < to && (#[trigger] ops[i]).op.is_content_box() && ops[i].qubits.to_set()
            == wires;
    assert(ops[at].qubits.to_set().contains(wire));
    assert(ops[at].qubits.contains(wire));
    assert forall|g: int| 0 <= g < k implies !(#[trigger] groups[g]).frontier.contains(wire) by {}
    lemma_first_home(groups, inst.qubits, synthesizer, 0);
    let home = first_home(groups, inst.qubits, synthesizer, 0);
    assert forall|g: int| 0 <= g < k implies !(#[trigger] groups[g]).admits(
        inst.qubits,
        synthesizer,
    ) by {
        assert(inst.qubits.to_set().contains(wire));
        let w = inst.qubits.index_of(wire);
        assert(inst.qubits[w] == wire);
    }
    assert(home == groups.len());
    assert(after == released(groups, inst.qubits).push(
        opened(circuit.num_qubits, inst, collect),
    ));
    assert forall|g: int| 0 <= g < k implies row_group(
        ops,
        cuts,
        g,
        #[trigger] after[g],
        wires,
        synthesizer,
    ) && shut(after[g], wires) by {
        assert(after[g] == groups[g].without(inst.qubits));
        assert(row_group(ops, cuts, g, first[g], wires, synthesizer));
        assert(!after[g].frontier.contains(wire));
    }
}

/// A run reaches up to a group's last member.
proof fn lemma_reach_ends_on_a_member(ops: Seq<InstructionModel>, members: Seq<usize>)
    ensures
        0 < reach(ops, members) ==> members.contains(ops[reach(ops, members) - 1].node),
    decreases ops.len(),
{
    if ops.len() > 0 && !members.contains(ops.last().node) {
        lemma_reach_ends_on_a_member(ops.drop_last(), members);
        lemma_reach(ops.drop_last(), members);
    }
}

/// A run with nothing of a group in it is ahead of the group.
proof fn lemma_parted_apart(ops: Seq<InstructionModel>, members: Seq<usize>)
    requires
        forall|i: int| 0 <= i < ops.len() ==> !members.contains((#[trigger] ops[i]).node),
    ensures
        parted(ops, members) == (Parting {
            ahead: ops,
            behind: Seq::empty(),
            held: (Set::empty(), Set::empty()),
            passed: (Set::empty(), Set::empty()),
            tangled: false,
        }),
    decreases ops.len(),
{
    if ops.len() > 0 {
        let front = ops.drop_last();
        assert forall|i: int| 0 <= i < front.len() implies !members.contains(
            (#[trigger] front[i]).node,
        ) by {
            assert(front[i] == ops[i]);
        }
        assert(ops[ops.len() - 1] == ops.last());
        lemma_parted_apart(front, members);
        assert(!on_any(ops.last(), (Set::empty(), Set::empty())));
        assert(front.push(ops.last()) =~= ops);
    } else {
        assert(ops =~= Seq::empty());
    }
}

/// Two collectors side by side contract in place.
proof fn lemma_neighbours_contract(circuit: CircuitModel, group: GroupModel, at: int)
    requires
        distinct_nodes(circuit.ops),
        0 <= at,
        at + 1 < circuit.ops.len(),
        group.members == seq![circuit.ops[at].node, circuit.ops[at + 1].node],
    ensures
        contracted(circuit, group) == Ok::<CircuitModel, SamplexError>(
            CircuitModel {
                ops: circuit.ops.take(at).push(fused(circuit, group)) + circuit.ops.skip(at + 2),
                ..circuit
            },
        ),
{
    let ops = circuit.ops;
    let members = group.members;
    let end = reach(ops, members) as int;
    lemma_reach(ops, members);
    lemma_reach_ends_on_a_member(ops, members);
    assert(members[0] == ops[at].node && members[1] == ops[at + 1].node);
    assert(members.contains(ops[at].node));
    assert(members.contains(ops[at + 1].node));
    assert forall|i: int| 0 <= i < ops.len() && i != at && i != at + 1 implies !members.contains(
        (#[trigger] ops[i]).node,
    ) by {
        if i < at {
            assert(ops[i].node != ops[at].node);
            assert(ops[i].node != ops[at + 1].node);
        } else {
            assert(ops[at].node != ops[i].node);
            assert(ops[at + 1].node != ops[i].node);
        }
    }
    assert(end > at + 1);
    assert(members.contains(ops[end - 1].node));
    assert(end == at + 2);
    let front = ops.take(at);
    assert forall|i: int| 0 <= i < front.len() implies !members.contains((#[trigger] front[i]).node) by {
        assert(front[i] == ops[i]);
    }
    lemma_parted_apart(front, members);
    assert(ops.take(at + 1).drop_last() =~= front);
    assert(ops.take(at + 1).last() == ops[at]);
    assert(ops.take(at + 2).drop_last() =~= ops.take(at + 1));
    assert(ops.take(at + 2).last() == ops[at + 1]);
    let step = parted(ops.take(at + 1), members);
    assert(!on_any(ops[at], (Set::empty(), Set::empty())));
    assert(step.ahead == front && step.behind == Seq::<InstructionModel>::empty() && !step.tangled);
    assert(step.passed == (Set::<usize>::empty(), Set::<usize>::empty()));
    assert(!on_any(ops[at + 1], step.passed));
    let parting = parted(ops.take(at + 2), members);
    assert(!parting.tangled);
    assert(parting.ahead == front);
    assert(parting.behind =~= Seq::<InstructionModel>::empty());
    assert(front.push(fused(circuit, group)) + parting.behind + ops.skip(end) =~= front.push(
        fused(circuit, group),
    ) + ops.skip(at + 2));
}

/// Whether a circuit is one of boxes in a row once the collectors before its first few boxes are one each.
spec fn row_upto(
    before: Seq<InstructionModel>,
    after: Seq<InstructionModel>,
    cuts: Seq<int>,
    g: int,
    wires: Set<usize>,
    synthesizer: SynthesizerType,
) -> bool {
    &&& after.len() == before.len() - g
    &&& distinct_nodes(after)
    &&& forall|i: int|
        cuts[g] < i < before.len() ==> #[trigger] before[i] == after[i - g]
    &&& forall|k: int|
        0 <= k <= g ==> #[trigger] layer_at(after, cuts, k, wires, synthesizer)
    &&& forall|k: int, i: int| #[trigger]
        inside_box(cuts, k, i) && k < g ==> before[i] == after[i - k]
}

/// The cuts of a row ascend.
proof fn lemma_cuts_ascend(
    ops: Seq<InstructionModel>,
    cuts: Seq<int>,
    wires: Set<usize>,
    synthesizer: SynthesizerType,
    k: int,
    l: int,
)
    requires
        boxes_in_a_row(ops, cuts, wires, synthesizer),
        0 <= k <= l < cuts.len(),
    ensures
        0 <= cuts[k],
        cuts[k] + 3 * (l - k) <= cuts[l] <= ops.len(),
    decreases l - k,
{
    if k < l {
        lemma_cuts_ascend(ops, cuts, wires, synthesizer, k, l - 1);
        assert(twirled_box(ops, cuts, l - 1, wires, synthesizer));
    } else if k < cuts.len() - 1 {
        assert(twirled_box(ops, cuts, k, wires, synthesizer));
    }
}

/// Putting one collector in the place of the two before a box in a row.
proof fn lemma_row_step(
    ops: Seq<InstructionModel>,
    before: Seq<InstructionModel>,
    after: Seq<InstructionModel>,
    one: InstructionModel,
    cuts: Seq<int>,
    g: int,
    wires: Set<usize>,
    synthesizer: SynthesizerType,
)
    requires
        boxes_in_a_row(ops, cuts, wires, synthesizer),
        0 < g < cuts.len() - 1,
        row_upto(ops, before, cuts, g - 1, wires, synthesizer),
        0 <= cuts[g] - g,
        cuts[g] - g + 1 < before.len(),
        after == before.take(cuts[g] - g).push(one) + before.skip(cuts[g] - g + 2),
        layer_on(one, wires, synthesizer),
        one.node == before[cuts[g] - g].node,
    ensures
        row_upto(ops, after, cuts, g, wires, synthesizer),
{
    let at = cuts[g] - g;
    lemma_cuts_ascend(ops, cuts, wires, synthesizer, g - 1, g);
    assert forall|i: int| 0 <= i < after.len() implies (#[trigger] after[i]) == if i < at {
        before[i]
    } else if i == at {
        one
    } else {
        before[i + 1]
    } by {}
    assert forall|i: int, j: int| 0 <= i < j < after.len() implies (#[trigger] after[i]).node != (
    #[trigger] after[j]).node by {
        let a = if i <= at {
            i
        } else {
            i + 1
        };
        let b = if j <= at {
            j
        } else {
            j + 1
        };
        assert(before[a].node != before[b].node);
    }
    assert forall|i: int| cuts[g] < i < ops.len() implies #[trigger] ops[i] == after[i - g] by {
        assert(ops[i] == before[i - (g - 1)]);
    }
    assert forall|k: int| 0 <= k <= g implies #[trigger] layer_at(after, cuts, k, wires, synthesizer) by {
        if k < g {
            lemma_cuts_ascend(ops, cuts, wires, synthesizer, k, g);
            assert(layer_at(before, cuts, k, wires, synthesizer));
            lemma_cuts_ascend(ops, cuts, wires, synthesizer, 0, k);
            assert(after[cuts[k] - k] == before[cuts[k] - k]);
        }
    }
    assert forall|k: int, i: int| #[trigger] inside_box(cuts, k, i) && k < g implies ops[i]
        == after[i - k] by {
        lemma_cuts_ascend(ops, cuts, wires, synthesizer, 0, k);
        lemma_cuts_ascend(ops, cuts, wires, synthesizer, k + 1, g);
        if k < g - 1 {
            assert(ops[i] == before[i - k]);
        } else {
            assert(ops[i] == before[i - (g - 1)]);
        }
        assert(after[i - k] == before[i - k]);
    }
}

/// Fusing the collectors before a box in a row puts one in their place and moves what follows up by one.
#[verifier::spinoff_prover]
#[verifier::rlimit(40)]
proof fn lemma_row_fused(
    circuit: CircuitModel,
    cuts: Seq<int>,
    wires: Set<usize>,
    synthesizer: SynthesizerType,
    g: int,
)
    requires
        circuit.wf(),
        equipped(circuit),
        circuit.num_qubits <= usize::MAX,
        boxes_in_a_row(circuit.ops, cuts, wires, synthesizer),
        0 <= g < cuts.len() - 1,
    ensures
        ({
            let groups = grouped(circuit.num_qubits, circuit.ops);
            let after = fused_upto(circuit, groups, (g + 1) as nat);
            &&& after.error is None
            &&& after.circuit.num_qubits == circuit.num_qubits
            &&& row_upto(circuit.ops, after.circuit.ops, cuts, g, wires, synthesizer)
        }),
    decreases g,
{
    let ops = circuit.ops;
    let count = cuts.len() - 1;
    let groups = grouped(circuit.num_qubits, ops);
    lemma_row_closed(circuit, cuts, wires, synthesizer, count);
    assert(ops.take(cuts[count]) =~= ops);
    assert(row_group(ops, cuts, g, groups[g], wires, synthesizer));
    assert(twirled_box(ops, cuts, g, wires, synthesizer));
    if g == 0 {
        assert(fused_upto(circuit, groups, 0) == (Outcome { circuit, error: None }));
        assert(groups[0].members.len() == 1);
        assert(fused_upto(circuit, groups, 1) == (Outcome { circuit, error: None }));
        assert(layer_at(ops, cuts, 0, wires, synthesizer));
    } else {
        lemma_row_fused(circuit, cuts, wires, synthesizer, g - 1);
        let before = fused_upto(circuit, groups, g as nat).circuit;
        let group = groups[g];
        let at = cuts[g] - g;
        assert(twirled_box(ops, cuts, g - 1, wires, synthesizer));
        lemma_cuts_ascend(ops, cuts, wires, synthesizer, 0, g);
        assert(ops[cuts[g] - 1] == before.ops[cuts[g] - 1 - (g - 1)]);
        assert(ops[cuts[g]] == before.ops[cuts[g] - (g - 1)]);
        assert(group.members.len() == 2);
        lemma_neighbours_contract(before, group, at);
        let one = fused(before, group);
        let after = contracted(before, group)->Ok_0;
        assert(fused_upto(circuit, groups, (g + 1) as nat) == (Outcome { circuit: after, error: None }));
        lemma_ascending(group.span, circuit.num_qubits);
        assert(one.qubits.to_set() =~= wires) by {
            assert forall|wire: usize| #[trigger] one.qubits.to_set().contains(wire)
                <==> wires.contains(wire) by {
                let inst = ops[cuts[g]];
                assert(inst.wf(circuit.num_qubits, circuit.num_clbits));
                if wires.contains(wire) {
                    assert(inst.qubits.to_set().contains(wire));
                    let w = inst.qubits.index_of(wire);
                    assert(inst.qubits[w] == wire);
                }
                assert(one.qubits.contains(wire) <==> one.qubits.to_set().contains(wire));
            }
        }
        let frame = ascending(group.span, before.num_qubits);
        assert(one.op.collect() == Some(merged_collect(group, frame)));
        assert(layer_on(one, wires, synthesizer));
        lemma_row_step(ops, before.ops, after.ops, one, cuts, g, wires, synthesizer);
    }
}

/// A row of boxes once its collectors are fused: one is left of every two that met, and what is in the boxes is
/// as it was.
proof fn lemma_row_siblings(
    circuit: CircuitModel,
    cuts: Seq<int>,
    wires: Set<usize>,
    synthesizer: SynthesizerType,
)
    requires
        circuit.wf(),
        equipped(circuit),
        circuit.num_qubits <= usize::MAX,
        boxes_in_a_row(circuit.ops, cuts, wires, synthesizer),
    ensures
        siblings_fused(circuit).error is None,
        distinct_nodes(siblings_fused(circuit).circuit.ops),
        row_shared(circuit.ops, siblings_fused(circuit).circuit.ops, cuts, wires, synthesizer),
        forall|k: int, i: int| #[trigger]
            inside_box(cuts, k, i) ==> circuit.ops[i] == siblings_fused(circuit).circuit.ops[i - k],
{
    let ops = circuit.ops;
    let count = cuts.len() - 1;
    let groups = grouped(circuit.num_qubits, ops);
    lemma_row_closed(circuit, cuts, wires, synthesizer, count);
    assert(ops.take(cuts[count]) =~= ops);
    lemma_row_fused(circuit, cuts, wires, synthesizer, count - 1);
    assert(twirled_box(ops, cuts, count - 1, wires, synthesizer));
    let last = fused_upto(circuit, groups, count as nat);
    assert(groups[count].members.len() == 1);
    assert(fused_upto(circuit, groups, groups.len()) == last);
    let after = last.circuit.ops;
    assert forall|k: int| 0 <= k < cuts.len() implies #[trigger] layer_at(
        after,
        cuts,
        k,
        wires,
        synthesizer,
    ) by {
        if k == count {
            assert(ops[cuts[count] - 1] == after[cuts[count] - 1 - (count - 1)]);
        }
    }
    assert forall|k: int, i: int| #[trigger] inside_box(cuts, k, i) implies ops[i] == after[i - k] by {
        if k == count - 1 {
            assert(ops[i] == after[i - (count - 1)]);
        }
    }
}

/// Merging inside the bodies of a run's content boxes keeps the outline of the scope they are in.
proof fn lemma_bodies_keep_outline(ops: Seq<InstructionModel>, circuit: CircuitModel)
    requires
        distinct_nodes(circuit.ops),
        forall|i: int|
            0 <= i < ops.len() && (#[trigger] ops[i]).op.is_content_box() ==> circuit.has(ops[i].node)
                && circuit.get(ops[i].node).op.is_content_box(),
    ensures
        outline_kept(circuit.ops, bodies_merged(ops, circuit).circuit.ops),
    decreases ops.len(),
{
    if ops.len() > 0 {
        let front = ops.drop_last();
        let inst = ops.last();
        assert(ops[ops.len() - 1] == inst);
        assert forall|i: int| 0 <= i < front.len() && (
        #[trigger] front[i]).op.is_content_box() implies circuit.has(front[i].node) && circuit.get(
            front[i].node,
        ).op.is_content_box() by {
            assert(front[i] == ops[i]);
        }
        lemma_bodies_keep_outline(front, circuit);
        let before = bodies_merged(front, circuit);
        if before.error is None && inst.op.is_content_box() && inst.blocks.len() == 1 {
            let place = circuit.at(inst.node);
            assert(circuit.ops[place].node == inst.node);
            assert(same_outline(circuit.ops[place], before.circuit.ops[place]));
            let at = before.circuit.at(inst.node);
            assert(before.circuit.ops[place].node == inst.node);
            assert(before.circuit.ops[at].node == inst.node);
            assert(at == place) by {
                assert(same_outline(circuit.ops[at], before.circuit.ops[at]));
                assert(circuit.ops[at].node == circuit.ops[place].node);
            }
            let after = bodies_merged(ops, circuit).circuit;
            assert forall|i: int| 0 <= i < circuit.ops.len() implies same_outline(
                #[trigger] circuit.ops[i],
                after.ops[i],
            ) by {
                assert(same_outline(circuit.ops[i], before.circuit.ops[i]));
            }
        }
    }
}

/// Which box in a row a position is in.
proof fn lemma_box_of(
    ops: Seq<InstructionModel>,
    cuts: Seq<int>,
    wires: Set<usize>,
    synthesizer: SynthesizerType,
    i: int,
    upto: int,
) -> (k: int)
    requires
        boxes_in_a_row(ops, cuts, wires, synthesizer),
        0 < upto < cuts.len(),
        0 <= i < cuts[upto],
    ensures
        0 <= k < upto,
        cuts[k] <= i < cuts[k + 1],
    decreases upto,
{
    if upto == 1 || cuts[upto - 1] <= i {
        upto - 1
    } else {
        lemma_box_of(ops, cuts, wires, synthesizer, i, upto - 1)
    }
}

/// A run without collectors adds none.
proof fn lemma_none_to_count(ops: Seq<InstructionModel>, path: Seq<usize>, from: int, to: int)
    requires
        0 <= from <= to <= ops.len(),
        forall|i: int| from <= i < to ==> !(#[trigger] ops[i]).op.is_collector(),
    ensures
        own_collectors(ops.take(to), path) == own_collectors(ops.take(from), path),
    decreases to - from,
{
    if from < to {
        lemma_none_to_count(ops, path, from, to - 1);
        assert(ops.take(to).drop_last() =~= ops.take(to - 1));
        assert(ops.take(to).last() == ops[to - 1]);
    }
}

proof fn lemma_one_to_count(ops: Seq<InstructionModel>, path: Seq<usize>, at: int)
    requires
        0 <= at < ops.len(),
        ops[at].op.is_collector(),
    ensures
        own_collectors(ops.take(at + 1), path).len() == own_collectors(ops.take(at), path).len() + 1,
{
    assert(ops.take(at + 1).drop_last() =~= ops.take(at));
    assert(ops.take(at + 1).last() == ops[at]);
}

/// Boxes in a row have two collectors each.
proof fn lemma_count_row(
    ops: Seq<InstructionModel>,
    cuts: Seq<int>,
    wires: Set<usize>,
    synthesizer: SynthesizerType,
    k: int,
)
    requires
        boxes_in_a_row(ops, cuts, wires, synthesizer),
        0 <= k < cuts.len(),
    ensures
        own_collectors(ops.take(cuts[k]), Seq::empty()).len() == 2 * k,
    decreases k,
{
    if k == 0 {
        assert(ops.take(0) =~= Seq::<InstructionModel>::empty());
    } else {
        lemma_count_row(ops, cuts, wires, synthesizer, k - 1);
        assert(twirled_box(ops, cuts, k - 1, wires, synthesizer));
        lemma_one_to_count(ops, Seq::empty(), cuts[k - 1]);
        lemma_none_to_count(ops, Seq::empty(), cuts[k - 1] + 1, cuts[k] - 1);
        lemma_one_to_count(ops, Seq::empty(), cuts[k] - 1);
    }
}

/// A shared row has one collector before each box and one after the last.
proof fn lemma_count_shared(
    before: Seq<InstructionModel>,
    after: Seq<InstructionModel>,
    cuts: Seq<int>,
    wires: Set<usize>,
    synthesizer: SynthesizerType,
    k: int,
)
    requires
        boxes_in_a_row(before, cuts, wires, synthesizer),
        row_shared(before, after, cuts, wires, synthesizer),
        0 <= k < cuts.len(),
    ensures
        0 <= cuts[k] - k < after.len(),
        own_collectors(after.take(cuts[k] - k + 1), Seq::empty()).len() == k + 1,
    decreases k,
{
    let count = cuts.len() - 1;
    lemma_cuts_ascend(before, cuts, wires, synthesizer, 0, k);
    lemma_cuts_ascend(before, cuts, wires, synthesizer, k, count);
    assert(layer_at(after, cuts, k, wires, synthesizer));
    if k == 0 {
        assert(after.take(0) =~= Seq::<InstructionModel>::empty());
        lemma_one_to_count(after, Seq::empty(), 0);
    } else {
        lemma_count_shared(before, after, cuts, wires, synthesizer, k - 1);
        assert(twirled_box(before, cuts, k - 1, wires, synthesizer));
        let from = cuts[k - 1] - (k - 1) + 1;
        let to = cuts[k] - k;
        assert forall|j: int| from <= j < to implies !(#[trigger] after[j]).op.is_collector() by {
            let i = j + k - 1;
            assert(inside_box(cuts, k - 1, i));
            assert(same_outline(before[i], after[i - (k - 1)]));
            assert(!before[i].op.is_collector());
        }
        lemma_none_to_count(after, Seq::empty(), from, to);
        lemma_one_to_count(after, Seq::empty(), to);
    }
}

/// A scope with no collector at any depth is left as it is.
proof fn lemma_nothing_to_merge(circuit: CircuitModel, path: Seq<usize>, order: ScopeOrder)
    requires
        circuit.wf(),
        swept(circuit, path, order) == Ok::<Seq<SiteModel>, SamplexError>(Seq::empty()),
    ensures
        merged(circuit) == (Outcome { circuit, error: None }),
    decreases circuit, 1nat,
{
    let own = own_collectors(circuit.ops, path);
    let inner = nested_collectors(circuit.ops, path, order)->Ok_0;
    assert(own.len() + inner.len() == swept(circuit, path, order)->Ok_0.len());
    assert(inner =~= Seq::<SiteModel>::empty());
    lemma_no_groups(circuit.num_qubits, circuit.ops, path);
    assert(decreases_to!(circuit => circuit.ops));
    assert(siblings_fused(circuit) == (Outcome { circuit, error: None }));
    assert forall|i: int| 0 <= i < circuit.ops.len() implies circuit.has(
        (#[trigger] circuit.ops[i]).node,
    ) && circuit.get(circuit.ops[i].node) == circuit.ops[i] by {
        lemma_get(circuit, circuit.ops[i].node, i);
    }
    lemma_nothing_in_bodies(circuit.ops, circuit, path, order);
}

proof fn lemma_no_groups(num_qubits: nat, ops: Seq<InstructionModel>, path: Seq<usize>)
    requires
        own_collectors(ops, path).len() == 0,
    ensures
        grouped(num_qubits, ops).len() == 0,
    decreases ops.len(),
{
    if ops.len() > 0 {
        lemma_no_groups(num_qubits, ops.drop_last(), path);
    }
}

proof fn lemma_nothing_in_bodies(
    ops: Seq<InstructionModel>,
    circuit: CircuitModel,
    path: Seq<usize>,
    order: ScopeOrder,
)
    requires
        forall|i: int, b: int|
            0 <= i < ops.len() && 0 <= b < ops[i].blocks.len() ==> (
            #[trigger] ops[i].blocks[b]).wf(),
        forall|i: int|
            0 <= i < ops.len() && (#[trigger] ops[i]).op.is_content_box() ==> circuit.has(ops[i].node)
                && circuit.get(ops[i].node) == ops[i],
        nested_collectors(ops, path, order) == Ok::<Seq<SiteModel>, SamplexError>(Seq::empty()),
    ensures
        bodies_merged(ops, circuit) == (Outcome { circuit, error: None }),
    decreases ops, 0nat,
{
    if ops.len() > 0 {
        let front = ops.drop_last();
        let inst = ops.last();
        let last = ops.len() - 1;
        assert(ops[last] == inst);
        assert(decreases_to!(ops => front));
        assert(decreases_to!(ops => ops[last]));
        assert(decreases_to!(ops[last] => ops[last].blocks));
        assert forall|i: int, b: int| 0 <= i < front.len() && 0 <= b
            < front[i].blocks.len() implies (#[trigger] front[i].blocks[b]).wf() by {
            assert(front[i] == ops[i]);
            assert(ops[i].blocks[b].wf());
        }
        assert forall|i: int| 0 <= i < front.len() && (
        #[trigger] front[i]).op.is_content_box() implies circuit.has(front[i].node) && circuit.get(
            front[i].node,
        ) == front[i] by {
            assert(front[i] == ops[i]);
        }
        let sites = nested_collectors(front, path, order);
        assert(sites is Ok);
        if inst.op.is_content_box() {
            let inner = swept(inst.blocks[0], path.push(inst.node), order);
            assert(inner is Ok);
            assert(sites->Ok_0.len() + inner->Ok_0.len() == (sites->Ok_0 + inner->Ok_0).len());
            assert(inner->Ok_0 =~= Seq::<SiteModel>::empty());
            assert(sites->Ok_0 =~= Seq::<SiteModel>::empty());
            assert(decreases_to!(ops[last].blocks => ops[last].blocks[0]));
            assert(ops[last].blocks[0].wf());
            lemma_nothing_to_merge(inst.blocks[0], path.push(inst.node), order);
            let place = circuit.at(inst.node);
            assert(circuit.ops[place].node == inst.node);
            assert(seq![inst.blocks[0]] =~= inst.blocks);
            assert(with_body(circuit, inst.node, inst.blocks[0]).ops =~= circuit.ops);
        }
        lemma_nothing_in_bodies(front, circuit, path, order);
    }
}

/// Adjacent boxes that share a synthesizer come to share the collector in the middle: boxes in a row need one
/// collector layer more than there are boxes, where they came with two each.
///
/// In the outermost scope of a circuit that is twirled boxes in a row, the layers left stand one before each box
/// and one after the last, every one of them on the boxes' wires and synthesizing as they all did. What is
/// between them, the content boxes with it, is there in the same order on the same wires. That holds whatever
/// the boxes hold, so long as the escapes that come first are not refused, which they are not where every
/// content box holds one body and nothing holds more than one. Where no box holds a collector, what is between
/// the layers is there unchanged, and nothing is refused.
pub proof fn lemma_boxes_in_a_row_share_collectors(
    root: CircuitModel,
    cuts: Seq<int>,
    wires: Set<usize>,
    synthesizer: SynthesizerType,
)
    requires
        root.wf(),
        equipped(root),
        run_size(root.ops) <= usize::MAX,
        root.num_qubits <= usize::MAX,
        boxes_in_a_row(root.ops, cuts, wires, synthesizer),
    ensures
        ({
            let boxes = cuts.len() - 1;
            let own = own_collectors(root.ops, Seq::empty());
            let after = collectors_merged(root);
            &&& own.len() == 2 * boxes
            &&& settled(root).error is None ==> {
                &&& own_collectors(after.circuit.ops, Seq::empty()).len() == boxes + 1
                &&& row_shared(root.ops, after.circuit.ops, cuts, wires, synthesizer)
            }
            &&& housed(root.ops) ==> settled(root).error is None
            &&& swept(root, Seq::empty(), ScopeOrder::Outermost) == Ok::<
                Seq<SiteModel>,
                SamplexError,
            >(own) ==> {
                &&& settled(root).error is None
                &&& after.error is None
                &&& forall|k: int, i: int| #[trigger]
                    inside_box(cuts, k, i) ==> after.circuit.ops[i - k] == root.ops[i]
            }
        }),
{
    let boxes = cuts.len() - 1;
    let own = own_collectors(root.ops, Seq::empty());
    if housed(root.ops) {
        lemma_escapes_are_not_refused(root);
    }
    lemma_count_row(root.ops, cuts, wires, synthesizer, boxes);
    assert(root.ops.take(cuts[boxes]) =~= root.ops);
    if settled(root).error is None {
        let circuit = settled(root).circuit;
        lemma_settled_is_a_fixed_point(root);
        lemma_escapes_keep_the_outline(root);
        lemma_outline_of_row(root.ops, circuit.ops, cuts, wires, synthesizer);
        lemma_row_siblings(circuit, cuts, wires, synthesizer);
        let outer = siblings_fused(circuit).circuit;
        lemma_content_stays(circuit, outer, cuts, wires, synthesizer);
        lemma_bodies_keep_outline(circuit.ops, outer);
        let after = collectors_merged(root).circuit;
        assert forall|k: int, i: int| #[trigger] inside_box(cuts, k, i) implies same_outline(
            root.ops[i],
            after.ops[i - k],
        ) by {
            lemma_cuts_ascend(root.ops, cuts, wires, synthesizer, 0, k);
            lemma_cuts_ascend(root.ops, cuts, wires, synthesizer, k + 1, boxes);
            assert(same_outline(root.ops[i], circuit.ops[i]));
            assert(circuit.ops[i] == outer.ops[i - k]);
            assert(same_outline(outer.ops[i - k], after.ops[i - k]));
        }
        assert forall|k: int| 0 <= k < cuts.len() implies #[trigger] layer_at(
            after.ops,
            cuts,
            k,
            wires,
            synthesizer,
        ) by {
            lemma_cuts_ascend(root.ops, cuts, wires, synthesizer, 0, k);
            lemma_cuts_ascend(root.ops, cuts, wires, synthesizer, k, boxes);
            assert(layer_at(outer.ops, cuts, k, wires, synthesizer));
            assert(same_outline(outer.ops[cuts[k] - k], after.ops[cuts[k] - k]));
        }
        assert(row_shared(root.ops, after.ops, cuts, wires, synthesizer));
        lemma_count_shared(root.ops, after.ops, cuts, wires, synthesizer, boxes);
        assert(after.ops.take(cuts[boxes] - boxes + 1) =~= after.ops);
    }
    if swept(root, Seq::empty(), ScopeOrder::Outermost) == Ok::<Seq<SiteModel>, SamplexError>(own) {
        lemma_nothing_escapes(root);
        lemma_row_siblings(root, cuts, wires, synthesizer);
        let outer = siblings_fused(root).circuit;
        let inner = nested_collectors(root.ops, Seq::empty(), ScopeOrder::Outermost)->Ok_0;
        assert((own + inner).len() == own.len() + inner.len());
        assert(inner =~= Seq::<SiteModel>::empty());
        lemma_content_stays(root, outer, cuts, wires, synthesizer);
        assert forall|i: int, b: int| 0 <= i < root.ops.len() && 0 <= b
            < root.ops[i].blocks.len() implies (#[trigger] root.ops[i].blocks[b]).wf() by {
            assert(root.ops[i].wf(root.num_qubits, root.num_clbits));
        }
        lemma_nothing_in_bodies(root.ops, outer, Seq::empty(), ScopeOrder::Outermost);
    }
}

/// A run with the outline of boxes in a row is boxes in a row.
proof fn lemma_outline_of_row(
    before: Seq<InstructionModel>,
    after: Seq<InstructionModel>,
    cuts: Seq<int>,
    wires: Set<usize>,
    synthesizer: SynthesizerType,
)
    requires
        boxes_in_a_row(before, cuts, wires, synthesizer),
        outline_kept(before, after),
    ensures
        boxes_in_a_row(after, cuts, wires, synthesizer),
{
    assert forall|k: int| 0 <= k < cuts.len() - 1 implies #[trigger] twirled_box(
        after,
        cuts,
        k,
        wires,
        synthesizer,
    ) by {
        assert(twirled_box(before, cuts, k, wires, synthesizer));
        let from = cuts[k];
        let to = cuts[k + 1];
        assert(same_outline(before[from], after[from]));
        assert(same_outline(before[to - 1], after[to - 1]));
        assert forall|i: int| from < i < to - 1 implies !(#[trigger] after[i]).op.is_collector() by {
            assert(same_outline(before[i], after[i]));
        }
        let i = choose|i: int|
            from < i < to - 1 && (#[trigger] before[i]).op.is_content_box()
                && before[i].qubits.to_set() == wires;
        assert(same_outline(before[i], after[i]));
        assert(after[i].op.is_content_box());
    }
}

/// The content boxes of a row are still there once its collectors are fused.
proof fn lemma_content_stays(
    circuit: CircuitModel,
    outer: CircuitModel,
    cuts: Seq<int>,
    wires: Set<usize>,
    synthesizer: SynthesizerType,
)
    requires
        boxes_in_a_row(circuit.ops, cuts, wires, synthesizer),
        distinct_nodes(outer.ops),
        outer.ops.len() == circuit.ops.len() - (cuts.len() - 2),
        forall|k: int, i: int| #[trigger]
            inside_box(cuts, k, i) ==> circuit.ops[i] == outer.ops[i - k],
    ensures
        forall|i: int|
            0 <= i < circuit.ops.len() && (#[trigger] circuit.ops[i]).op.is_content_box()
                ==> outer.has(circuit.ops[i].node) && outer.get(circuit.ops[i].node)
                == circuit.ops[i],
{
    let boxes = cuts.len() - 1;
    assert forall|i: int| 0 <= i < circuit.ops.len() && (
    #[trigger] circuit.ops[i]).op.is_content_box() implies outer.has(circuit.ops[i].node)
        && outer.get(circuit.ops[i].node) == circuit.ops[i] by {
        let k = lemma_box_of(circuit.ops, cuts, wires, synthesizer, i, boxes);
        assert(twirled_box(circuit.ops, cuts, k, wires, synthesizer));
        assert(inside_box(cuts, k, i));
        lemma_cuts_ascend(circuit.ops, cuts, wires, synthesizer, 0, k);
        lemma_cuts_ascend(circuit.ops, cuts, wires, synthesizer, k + 1, boxes);
        assert(outer.ops[i - k] == circuit.ops[i]);
        let at = outer.at(circuit.ops[i].node);
        assert(outer.ops[i - k].node == circuit.ops[i].node);
        assert(outer.ops[at].node == circuit.ops[i].node);
    }
}

// --- What merging keeps of the order on each wire ---------------------------------------------------

/// What a run does on a qubit.
spec fn line(ops: Seq<InstructionModel>, frame: Seq<usize>, qubit: usize) -> Seq<Step> {
    on_qubit(flat(ops, frame), qubit)
}

proof fn lemma_line_add(
    left: Seq<InstructionModel>,
    right: Seq<InstructionModel>,
    frame: Seq<usize>,
    qubit: usize,
)
    ensures
        line(left + right, frame, qubit) == line(left, frame, qubit) + line(right, frame, qubit),
        run_size(left + right) == run_size(left) + run_size(right),
    decreases right.len(),
{
    lemma_flat_add(left, right, frame);
    lemma_on_qubit_add(flat(left, frame), flat(right, frame), qubit);
    if right.len() == 0 {
        assert(left + right =~= left);
    } else {
        lemma_line_add(left, right.drop_last(), frame, qubit);
        assert((left + right).drop_last() =~= left + right.drop_last());
        assert((left + right).last() == right.last());
    }
}

proof fn lemma_line_one(inst: InstructionModel, frame: Seq<usize>, qubit: usize)
    ensures
        line(seq![inst], frame, qubit) == on_qubit(flat_of(inst, frame), qubit),
        run_size(seq![inst]) == 1 + blocks_size(inst.blocks),
{
    lemma_flat_one(inst, frame);
    let one = seq![inst];
    assert(one.drop_last() =~= Seq::<InstructionModel>::empty());
    assert(run_size(one.drop_last()) == 0);
    assert(one.last() == inst);
}

proof fn lemma_line_push(
    ops: Seq<InstructionModel>,
    inst: InstructionModel,
    frame: Seq<usize>,
    qubit: usize,
)
    ensures
        line(ops.push(inst), frame, qubit) == line(ops, frame, qubit) + on_qubit(
            flat_of(inst, frame),
            qubit,
        ),
        run_size(ops.push(inst)) == run_size(ops) + 1 + blocks_size(inst.blocks),
{
    assert(ops.push(inst) =~= ops + seq![inst]);
    lemma_line_add(ops, seq![inst], frame, qubit);
    lemma_line_one(inst, frame, qubit);
}

/// Whether no instruction of a run is on a wire.
spec fn off_wire(ops: Seq<InstructionModel>, w: usize) -> bool {
    forall|i: int| 0 <= i < ops.len() ==> !(#[trigger] ops[i]).touches(w)
}

proof fn lemma_off_wire_one(
    inst: InstructionModel,
    num_qubits: nat,
    num_clbits: nat,
    frame: Seq<usize>,
    w: usize,
)
    requires
        inst.wf(num_qubits, num_clbits),
        tells_apart(frame, num_qubits),
        w < num_qubits,
        !inst.touches(w),
    ensures
        on_qubit(flat_of(inst, frame), frame[w as int]) == Seq::<Step>::empty(),
{
    let none = Seq::<usize>::empty();
    lemma_beads_are_the_instruction(inst, none, frame, Some(w), num_qubits, num_clbits);
    assert(strung_of(inst, none, frame, Some(w)) =~= Seq::<Bead>::empty());
    assert(joined(Seq::<Bead>::empty()) =~= Seq::<Step>::empty());
}

/// A run that is not on a wire does nothing on its qubit.
proof fn lemma_off_wire(
    ops: Seq<InstructionModel>,
    num_qubits: nat,
    num_clbits: nat,
    frame: Seq<usize>,
    w: usize,
)
    requires
        run_on(ops, num_qubits, num_clbits),
        tells_apart(frame, num_qubits),
        w < num_qubits,
        off_wire(ops, w),
    ensures
        line(ops, frame, frame[w as int]) == Seq::<Step>::empty(),
    decreases ops.len(),
{
    if ops.len() > 0 {
        let front = ops.drop_last();
        let last = ops.len() - 1;
        assert forall|i: int| 0 <= i < front.len() implies (#[trigger] front[i]).wf(
            num_qubits,
            num_clbits,
        ) && !front[i].touches(w) by {
            assert(ops[i] == front[i]);
        }
        lemma_off_wire(front, num_qubits, num_clbits, frame, w);
        assert(ops[last].wf(num_qubits, num_clbits) && !ops[last].touches(w));
        lemma_off_wire_one(ops[last], num_qubits, num_clbits, frame, w);
        assert(front.push(ops[last]) =~= ops);
        lemma_line_push(front, ops[last], frame, frame[w as int]);
    }
}

/// The members of a group that a run holds, in the order it holds them.
spec fn taken(ops: Seq<InstructionModel>, members: Seq<usize>) -> Seq<InstructionModel>
    decreases ops.len(),
{
    if ops.len() == 0 {
        Seq::empty()
    } else if members.contains(ops.last().node) {
        taken(ops.drop_last(), members).push(ops.last())
    } else {
        taken(ops.drop_last(), members)
    }
}

proof fn lemma_taken_add(
    left: Seq<InstructionModel>,
    right: Seq<InstructionModel>,
    members: Seq<usize>,
)
    ensures
        taken(left + right, members) == taken(left, members) + taken(right, members),
    decreases right.len(),
{
    if right.len() == 0 {
        assert(left + right =~= left);
        assert(taken(left, members) + Seq::<InstructionModel>::empty() =~= taken(left, members));
    } else {
        lemma_taken_add(left, right.drop_last(), members);
        assert((left + right).drop_last() =~= left + right.drop_last());
        assert((left + right).last() == right.last());
        assert(taken(left + right, members) =~= taken(left, members) + taken(right, members));
    }
}

proof fn lemma_taken_one(inst: InstructionModel, members: Seq<usize>)
    ensures
        taken(seq![inst], members) == if members.contains(inst.node) {
            seq![inst]
        } else {
            Seq::empty()
        },
{
    let one = seq![inst];
    assert(one.drop_last() =~= Seq::<InstructionModel>::empty());
    assert(taken(one.drop_last(), members) =~= Seq::<InstructionModel>::empty());
    assert(one.last() == inst);
    assert(Seq::<InstructionModel>::empty().push(inst) =~= one);
}

/// What is taken of a run is of the run, and of the group.
proof fn lemma_taken_within(
    ops: Seq<InstructionModel>,
    members: Seq<usize>,
    num_qubits: nat,
    num_clbits: nat,
)
    requires
        run_on(ops, num_qubits, num_clbits),
    ensures
        run_on(taken(ops, members), num_qubits, num_clbits),
        forall|i: int|
            0 <= i < taken(ops, members).len() ==> ops.contains(#[trigger] taken(ops, members)[i])
                && members.contains(taken(ops, members)[i].node),
    decreases ops.len(),
{
    if ops.len() > 0 {
        let front = ops.drop_last();
        assert forall|i: int| 0 <= i < front.len() implies (#[trigger] front[i]).wf(
            num_qubits,
            num_clbits,
        ) by {
            assert(ops[i] == front[i]);
        }
        lemma_taken_within(front, members, num_qubits, num_clbits);
        let last = ops.len() - 1;
        assert(ops[last].wf(num_qubits, num_clbits));
        let some = taken(front, members);
        let all = taken(ops, members);
        assert forall|i: int| 0 <= i < all.len() implies ops.contains(#[trigger] all[i])
            && members.contains(all[i].node) && all[i].wf(num_qubits, num_clbits) by {
            if i < some.len() {
                assert(all[i] == some[i]);
                let k = front.index_of(some[i]);
                assert(front[k] == some[i]);
                assert(ops[k] == some[i]);
            } else {
                assert(all[i] == ops[last]);
            }
        }
    }
}

/// A member that is not in a run changes nothing of what is taken of it.
proof fn lemma_taken_elsewhere(ops: Seq<InstructionModel>, members: Seq<usize>, node: usize)
    requires
        forall|i: int| 0 <= i < ops.len() ==> (#[trigger] ops[i]).node != node,
    ensures
        taken(ops, members.push(node)) == taken(ops, members),
    decreases ops.len(),
{
    if ops.len() > 0 {
        let front = ops.drop_last();
        assert forall|i: int| 0 <= i < front.len() implies (#[trigger] front[i]).node != node by {
            assert(ops[i] == front[i]);
        }
        lemma_taken_elsewhere(front, members, node);
        let last = ops.len() - 1;
        let of = ops[last].node;
        assert(of != node);
        let more = members.push(node);
        if members.contains(of) {
            assert(more[members.index_of(of)] == of);
        }
        if more.contains(of) {
            let k = more.index_of(of);
            assert(more[k] == of);
            assert(members[k] == of);
        }
    }
}

/// A run seen from a group does on a wire what it did: what is ahead of the group, the group, and what is behind.
proof fn lemma_parted_line(
    ops: Seq<InstructionModel>,
    members: Seq<usize>,
    num_qubits: nat,
    num_clbits: nat,
    frame: Seq<usize>,
    w: usize,
)
    requires
        run_on(ops, num_qubits, num_clbits),
        tells_apart(frame, num_qubits),
        w < num_qubits,
        !parted(ops, members).tangled,
    ensures
        ({
            let parting = parted(ops, members);
            let mine = taken(ops, members);
            let q = frame[w as int];
            &&& line(ops, frame, q) == line(parting.ahead, frame, q) + line(mine, frame, q) + line(
                parting.behind,
                frame,
                q,
            )
            &&& run_size(ops) == run_size(parting.ahead) + run_size(mine) + run_size(parting.behind)
            &&& run_on(parting.ahead, num_qubits, num_clbits)
            &&& run_on(mine, num_qubits, num_clbits)
            &&& run_on(parting.behind, num_qubits, num_clbits)
            &&& !parting.held.0.contains(w) ==> off_wire(mine, w) && off_wire(parting.behind, w)
            &&& !parting.passed.0.contains(w) ==> off_wire(parting.behind, w)
        }),
    decreases ops.len(),
{
    let q = frame[w as int];
    let none = Seq::<Step>::empty();
    if ops.len() == 0 {
        assert(line(Seq::empty(), frame, q) =~= none);
        assert(none + none + none =~= none);
    } else {
        let front = ops.drop_last();
        let last = ops.len() - 1;
        let inst = ops[last];
        assert forall|i: int| 0 <= i < front.len() implies (#[trigger] front[i]).wf(
            num_qubits,
            num_clbits,
        ) by {
            assert(ops[i] == front[i]);
        }
        lemma_parted_line(front, members, num_qubits, num_clbits, frame, w);
        let before = parted(front, members);
        let parting = parted(ops, members);
        let some = taken(front, members);
        let mine = taken(ops, members);
        assert(inst.wf(num_qubits, num_clbits));
        assert(front.push(inst) =~= ops);
        lemma_line_push(front, inst, frame, q);
        let a = line(before.ahead, frame, q);
        let m = line(some, frame, q);
        let b = line(before.behind, frame, q);
        let own = on_qubit(flat_of(inst, frame), q);
        if !inst.touches(w) {
            lemma_off_wire_one(inst, num_qubits, num_clbits, frame, w);
        }
        assert(inst.touches(w) ==> inst.qubits.to_set().contains(w));
        if members.contains(inst.node) {
            lemma_line_push(some, inst, frame, q);
            if inst.touches(w) {
                assert(!before.passed.0.contains(w)) by {
                    let k = inst.qubits.index_of(w);
                    assert(inst.qubits[k] == w);
                }
                lemma_off_wire(before.behind, num_qubits, num_clbits, frame, w);
            }
            assert(a + m + b + own =~= a + (m + own) + b);
            assert forall|i: int| 0 <= i < mine.len() implies (#[trigger] mine[i]).wf(
                num_qubits,
                num_clbits,
            ) && (!parting.held.0.contains(w) ==> !mine[i].touches(w)) by {
                if i < some.len() {
                    assert(mine[i] == some[i]);
                } else {
                    assert(mine[i] == inst);
                }
            }
        } else if on_any(inst, before.held) {
            lemma_line_push(before.behind, inst, frame, q);
            assert(a + m + b + own =~= a + m + (b + own));
            let late = parting.behind;
            assert forall|i: int| 0 <= i < late.len() implies (#[trigger] late[i]).wf(
                num_qubits,
                num_clbits,
            ) && (!parting.passed.0.contains(w) ==> !late[i].touches(w)) && (!parting.held.0.contains(w)
                ==> !late[i].touches(w)) by {
                if i < before.behind.len() {
                    assert(late[i] == before.behind[i]);
                } else {
                    assert(late[i] == inst);
                }
            }
        } else {
            lemma_line_push(before.ahead, inst, frame, q);
            if inst.touches(w) {
                assert(!before.held.0.contains(w)) by {
                    let k = inst.qubits.index_of(w);
                    assert(inst.qubits[k] == w);
                }
                lemma_off_wire(before.behind, num_qubits, num_clbits, frame, w);
                lemma_off_wire(some, num_qubits, num_clbits, frame, w);
            }
            assert(a + m + b + own =~= (a + own) + m + b);
            let early = parting.ahead;
            assert forall|i: int| 0 <= i < early.len() implies (#[trigger] early[i]).wf(
                num_qubits,
                num_clbits,
            ) by {
                if i < before.ahead.len() {
                    assert(early[i] == before.ahead[i]);
                } else {
                    assert(early[i] == inst);
                }
            }
        }
    }
}

/// The members of a group, in the order their contributions compose.
spec fn listed(circuit: CircuitModel, members: Seq<usize>) -> Seq<InstructionModel> {
    Seq::new(members.len(), |k: int| circuit.get(members[k]))
}

/// Whether of two members on a common wire the one that composes first comes first.
spec fn ranked(circuit: CircuitModel, members: Seq<usize>) -> bool {
    forall|k: int, l: int|
        0 <= k < l < members.len() && share_a_wire(
            circuit.get(#[trigger] members[k]),
            circuit.get(#[trigger] members[l]),
        ) ==> circuit.at(members[k]) < circuit.at(members[l])
}

/// Composed in their order, the members of a group do on a wire what they did where they stood.
proof fn lemma_members_line(circuit: CircuitModel, members: Seq<usize>, frame: Seq<usize>, w: usize)
    requires
        circuit.wf(),
        members.no_duplicates(),
        forall|k: int| 0 <= k < members.len() ==> circuit.has(#[trigger] members[k]),
        ranked(circuit, members),
        tells_apart(frame, circuit.num_qubits),
        w < circuit.num_qubits,
    ensures
        line(listed(circuit, members), frame, frame[w as int]) == line(
            taken(circuit.ops, members),
            frame,
            frame[w as int],
        ),
        run_size(listed(circuit, members)) == run_size(taken(circuit.ops, members)),
    decreases members.len(),
{
    let q = frame[w as int];
    let ops = circuit.ops;
    if members.len() == 0 {
        lemma_taken_within(ops, members, circuit.num_qubits, circuit.num_clbits);
        let mine = taken(ops, members);
        if mine.len() > 0 {
            assert(members.contains(mine[0].node));
        }
        assert(mine =~= Seq::<InstructionModel>::empty());
        assert(listed(circuit, members) =~= Seq::<InstructionModel>::empty());
    } else {
        let few = members.drop_last();
        let node = members.last();
        let end = members.len() - 1;
        assert(members[end] == node);
        assert(few.push(node) =~= members);
        assert forall|k: int| 0 <= k < few.len() implies circuit.has(#[trigger] few[k]) by {
            assert(members[k] == few[k]);
        }
        assert(few.no_duplicates()) by {
            assert forall|i: int, j: int| 0 <= i < few.len() && 0 <= j < few.len() && i != j implies few[i]
                != few[j] by {
                assert(members[i] != members[j]);
            }
        }
        assert(!few.contains(node)) by {
            if few.contains(node) {
                let k = few.index_of(node);
                assert(few[k] == node);
                assert(members[k] != members[end]);
            }
        }
        assert(ranked(circuit, few)) by {
            assert forall|k: int, l: int|
                0 <= k < l < few.len() && share_a_wire(
                    circuit.get(#[trigger] few[k]),
                    circuit.get(#[trigger] few[l]),
                ) implies circuit.at(few[k]) < circuit.at(few[l]) by {
                assert(members[k] == few[k] && members[l] == few[l]);
            }
        }
        lemma_members_line(circuit, few, frame, w);
        let p = circuit.at(node);
        let inst = ops[p];
        assert(inst.node == node);
        assert(circuit.get(node) == inst);
        let left = ops.take(p);
        let right = ops.skip(p + 1);
        let one = seq![inst];
        assert(ops =~= left + one + right);
        lemma_taken_add(left + one, right, members);
        lemma_taken_add(left, one, members);
        lemma_taken_add(left + one, right, few);
        lemma_taken_add(left, one, few);
        lemma_taken_one(inst, members);
        lemma_taken_one(inst, few);
        assert forall|i: int| 0 <= i < left.len() implies (#[trigger] left[i]).node != node by {
            assert(ops[i].node != ops[p].node);
        }
        assert forall|i: int| 0 <= i < right.len() implies (#[trigger] right[i]).node != node by {
            assert(ops[p].node != ops[p + 1 + i].node);
        }
        lemma_taken_elsewhere(left, few, node);
        lemma_taken_elsewhere(right, few, node);
        let early = taken(left, few);
        let late = taken(right, few);
        assert(taken(ops, members) == early + one + late);
        assert(taken(ops, few) =~= early + late);
        assert forall|i: int| 0 <= i < right.len() implies (#[trigger] right[i]).wf(
            circuit.num_qubits,
            circuit.num_clbits,
        ) by {
            assert(ops[p + 1 + i] == right[i]);
        }
        lemma_taken_within(right, few, circuit.num_qubits, circuit.num_clbits);
        assert(inst.wf(circuit.num_qubits, circuit.num_clbits));
        if inst.touches(w) {
            assert(off_wire(late, w)) by {
                assert forall|i: int| 0 <= i < late.len() implies !(#[trigger] late[i]).touches(w) by {
                    if late[i].touches(w) {
                        assert(right.contains(late[i]) && few.contains(late[i].node));
                        let j = right.index_of(late[i]);
                        assert(right[j] == late[i]);
                        assert(ops[p + 1 + j] == late[i]);
                        lemma_get(circuit, late[i].node, p + 1 + j);
                        let k = few.index_of(late[i].node);
                        assert(few[k] == late[i].node);
                        assert(members[k] == late[i].node);
                        assert(share_a_wire(circuit.get(members[k]), circuit.get(members[end]))) by {
                            let c = inst.qubits.index_of(w);
                            assert(inst.qubits[c] == w);
                            assert(late[i].qubits.to_set().contains(w));
                        }
                        assert(circuit.at(members[k]) < circuit.at(members[end]));
                    }
                }
            }
            lemma_off_wire(late, circuit.num_qubits, circuit.num_clbits, frame, w);
        } else {
            lemma_off_wire_one(inst, circuit.num_qubits, circuit.num_clbits, frame, w);
        }
        lemma_line_add(early + one, late, frame, q);
        lemma_line_add(early, one, frame, q);
        lemma_line_add(early, late, frame, q);
        lemma_line_one(inst, frame, q);
        assert(listed(circuit, members) =~= listed(circuit, few).push(inst));
        lemma_line_push(listed(circuit, few), inst, frame, q);
        let e = line(early, frame, q);
        let l = line(late, frame, q);
        let own = on_qubit(flat_of(inst, frame), q);
        assert(e + own + l =~= e + l + own);
    }
}

/// The merged body does what the members did, one after another.
proof fn lemma_merged_body_flat(
    circuit: CircuitModel,
    members: Seq<usize>,
    wires: Seq<usize>,
    num_clbits: nat,
    frame: Seq<usize>,
)
    requires
        circuit.wf(),
        valid(circuit),
        forall|k: int|
            0 <= k < members.len() ==> circuit.has(#[trigger] members[k]) && circuit.get(
                members[k],
            ).op.is_collector(),
        frame_fits(circuit, members, wires),
        wires.len() <= usize::MAX,
    ensures
        flat(merged_body(circuit, members, wires, num_clbits).ops, through(frame, wires)) == flat(
            listed(circuit, members),
            frame,
        ),
    decreases members.len(),
{
    if members.len() == 0 {
        assert(listed(circuit, members) =~= Seq::<InstructionModel>::empty());
    } else {
        let few = members.drop_last();
        let end = members.len() - 1;
        let node = members[end];
        assert forall|k: int| 0 <= k < few.len() implies circuit.has(#[trigger] few[k])
            && circuit.get(few[k]).op.is_collector() && on_frame(wires, circuit.get(few[k]).qubits) by {
            assert(members[k] == few[k]);
        }
        lemma_merged_body_flat(circuit, few, wires, num_clbits, frame);
        let inst = circuit.get(node);
        assert(circuit.ops[circuit.at(node)].node == node);
        assert(inst.wf(circuit.num_qubits, circuit.num_clbits));
        assert(valid_at(circuit.ops[circuit.at(node)]));
        lemma_flat_of_contributed(
            merged_body(circuit, few, wires, num_clbits),
            inst,
            inst.qubits,
            wires,
            frame,
            frame,
        );
        assert(listed(circuit, members) =~= listed(circuit, few).push(inst));
        lemma_flat_push(listed(circuit, few), inst, frame);
    }
}

/// The merged body is as wide as the group's frame, and no larger than what it is made of.
proof fn lemma_merged_body_open(
    circuit: CircuitModel,
    members: Seq<usize>,
    wires: Seq<usize>,
    num_clbits: nat,
)
    requires
        circuit.wf(),
        frame_fits(circuit, members, wires),
        wires.len() <= usize::MAX,
        run_size(listed(circuit, members)) <= usize::MAX,
    ensures
        open_body(merged_body(circuit, members, wires, num_clbits), wires, num_clbits),
        run_size(merged_body(circuit, members, wires, num_clbits).ops) + members.len() <= run_size(
            listed(circuit, members),
        ),
    decreases members.len(),
{
    if members.len() > 0 {
        let few = members.drop_last();
        let end = members.len() - 1;
        let node = members[end];
        assert forall|k: int| 0 <= k < few.len() implies circuit.has(#[trigger] few[k]) && on_frame(
            wires,
            circuit.get(few[k]).qubits,
        ) by {
            assert(members[k] == few[k]);
        }
        let inst = circuit.get(node);
        assert(circuit.ops[circuit.at(node)].node == node);
        assert(inst.wf(circuit.num_qubits, circuit.num_clbits));
        assert(listed(circuit, members) =~= listed(circuit, few).push(inst));
        lemma_line_push(listed(circuit, few), inst, Seq::empty(), 0);
        lemma_merged_body_open(circuit, few, wires, num_clbits);
        let out = merged_body(circuit, few, wires, num_clbits);
        lemma_ops_within(out.ops);
        if inst.blocks.len() == 1 {
            lemma_blocks_size_one(inst.blocks);
            lemma_ops_within(inst.blocks[0].ops);
        }
        lemma_contributed(out, single_body(inst), inst.qubits, wires, num_clbits);
    }
}

/// The collector a group fuses into can stand in the circuit, and does what the members did.
proof fn lemma_fused(circuit: CircuitModel, group: GroupModel, frame: Seq<usize>)
    requires
        circuit.wf(),
        valid(circuit),
        group_sound(circuit, group),
        circuit.num_qubits <= usize::MAX,
        circuit.num_clbits <= usize::MAX,
        run_size(listed(circuit, group.members)) <= usize::MAX,
    ensures
        fused(circuit, group).wf(circuit.num_qubits, circuit.num_clbits),
        flat_of(fused(circuit, group), frame) == flat(listed(circuit, group.members), frame),
        1 + blocks_size(fused(circuit, group).blocks) <= run_size(listed(circuit, group.members)),
{
    let one = fused(circuit, group);
    let wires = ascending(group.span, circuit.num_qubits);
    let clbits = ascending(clbits_of(circuit, group.members), circuit.num_clbits);
    lemma_ascending(group.span, circuit.num_qubits);
    lemma_ascending(clbits_of(circuit, group.members), circuit.num_clbits);
    lemma_span_on_frame(circuit, group);
    lemma_merged_body_open(circuit, group.members, wires, clbits.len());
    lemma_merged_body_flat(circuit, group.members, wires, clbits.len(), frame);
    lemma_blocks_size_one(one.blocks);
    assert(one.blocks[0] == merged_body(circuit, group.members, wires, clbits.len()));
}

/// Contracting a group changes nothing of what is done on a wire, and does not grow the circuit.
proof fn lemma_contracted_line(
    circuit: CircuitModel,
    group: GroupModel,
    frame: Seq<usize>,
    wire: Option<usize>,
)
    requires
        circuit.wf(),
        valid(circuit),
        group_sound(circuit, group),
        group.members.no_duplicates(),
        ranked(circuit, group.members),
        circuit.num_qubits <= usize::MAX,
        circuit.num_clbits <= usize::MAX,
        run_size(circuit.ops) <= usize::MAX,
        contracted(circuit, group) is Ok,
        tells_apart(frame, circuit.num_qubits),
        wire matches Some(w) ==> w < circuit.num_qubits,
        group.members.len() > 1,
    ensures
        fused(circuit, group).wf(circuit.num_qubits, circuit.num_clbits),
        run_size(contracted(circuit, group)->Ok_0.ops) <= run_size(circuit.ops),
        wire matches Some(w) ==> line(
            contracted(circuit, group)->Ok_0.ops,
            frame,
            frame[w as int],
        ) == line(circuit.ops, frame, frame[w as int]),
{
    let members = group.members;
    let w = match wire {
        Some(w) => w,
        None => lemma_some_wire(circuit, group),
    };
    let q = frame[w as int];
    let ops = circuit.ops;
    let end = reach(ops, members) as int;
    let run = ops.take(end);
    let rest = ops.skip(end);
    let parting = parted(run, members);
    let one = fused(circuit, group);
    lemma_reach(ops, members);
    assert(ops =~= run + rest);
    assert forall|i: int| 0 <= i < run.len() implies (#[trigger] run[i]).wf(
        circuit.num_qubits,
        circuit.num_clbits,
    ) by {
        assert(ops[i] == run[i]);
    }
    assert forall|i: int| 0 <= i < rest.len() implies (#[trigger] rest[i]).wf(
        circuit.num_qubits,
        circuit.num_clbits,
    ) by {
        assert(ops[end + i] == rest[i]);
    }
    lemma_parted_line(run, members, circuit.num_qubits, circuit.num_clbits, frame, w);
    lemma_members_line(circuit, members, frame, w);
    lemma_taken_add(run, rest, members);
    lemma_taken_within(rest, members, circuit.num_qubits, circuit.num_clbits);
    let none = taken(rest, members);
    if none.len() > 0 {
        assert(rest.contains(none[0]));
        let k = rest.index_of(none[0]);
        assert(rest[k] == none[0]);
        assert(!members.contains(ops[end + k].node));
    }
    let mine = taken(run, members);
    assert(taken(ops, members) =~= mine);
    lemma_line_add(run, rest, frame, q);
    lemma_fused(circuit, group, frame);
    let all = listed(circuit, members);
    assert(on_qubit(flat_of(one, frame), q) == line(all, frame, q));
    let ahead = parting.ahead;
    let behind = parting.behind;
    lemma_line_push(ahead, one, frame, q);
    lemma_line_add(ahead.push(one), behind, frame, q);
    lemma_line_add(ahead.push(one) + behind, rest, frame, q);
}

/// A group of more than one has a wire.
proof fn lemma_some_wire(circuit: CircuitModel, group: GroupModel) -> (w: usize)
    requires
        circuit.wf(),
        group_sound(circuit, group),
        group.members.len() > 1,
    ensures
        w < circuit.num_qubits,
{
    let w = choose|w: usize| #[trigger] group.span.contains(w);
    let k = choose|k: int|
        0 <= k < group.members.len() && (#[trigger] circuit.get(group.members[k])).qubits.contains(w);
    let inst = circuit.get(group.members[k]);
    assert(circuit.has(group.members[k]));
    assert(inst.wf(circuit.num_qubits, circuit.num_clbits));
    assert(inst.qubits[inst.qubits.index_of(w)] == w);
    w
}

/// Collectors join groups in the order they stand in.
proof fn lemma_groups_ascend(circuit: CircuitModel, count: int, g: int)
    requires
        circuit.wf(),
        equipped(circuit),
        0 <= count <= circuit.ops.len(),
        0 <= g < grouped(circuit.num_qubits, circuit.ops.take(count)).len(),
    ensures
        ({
            let members = grouped(circuit.num_qubits, circuit.ops.take(count))[g].members;
            &&& forall|k: int|
                0 <= k < members.len() ==> circuit.at(#[trigger] members[k]) < count
            &&& forall|k: int, l: int|
                0 <= k < l < members.len() ==> circuit.at(#[trigger] members[k]) < circuit.at(
                    #[trigger] members[l],
                )
        }),
    decreases count,
{
    if count > 0 {
        let i = count - 1;
        let groups = grouped(circuit.num_qubits, circuit.ops.take(i));
        let after = grouped(circuit.num_qubits, circuit.ops.take(count));
        let inst = circuit.ops[i];
        assert(circuit.ops.take(count).drop_last() =~= circuit.ops.take(i));
        assert(circuit.ops.take(count).last() == inst);
        lemma_get(circuit, inst.node, i);
        if g < groups.len() {
            lemma_groups_ascend(circuit, i, g);
        }
        let members = after[g].members;
        if let Some(collect) = inst.op.collect() {
            let home = first_home(groups, inst.qubits, collect.parts[0].synthesizer, 0);
            lemma_first_home(groups, inst.qubits, collect.parts[0].synthesizer, 0);
            if home < groups.len() && g == home {
                let few = groups[g].members;
                assert(members == few.push(inst.node));
                assert forall|k: int, l: int| 0 <= k < l < members.len() implies circuit.at(
                    #[trigger] members[k],
                ) < circuit.at(#[trigger] members[l]) by {
                    assert(members[k] == few[k]);
                    if l < few.len() {
                        assert(members[l] == few[l]);
                    }
                }
                assert forall|k: int| 0 <= k < members.len() implies circuit.at(
                    #[trigger] members[k],
                ) < count by {
                    if k < few.len() {
                        assert(members[k] == few[k]);
                    }
                }
            } else if home >= groups.len() && g == groups.len() {
                assert(members == seq![inst.node]);
            } else {
                assert(members == groups[g].members);
            }
        } else {
            assert(members == groups[g].members);
        }
    }
}

/// Contracting one group leaves the members of another in their order on common wires.
proof fn lemma_stays_ranked(circuit: CircuitModel, group: GroupModel, members: Seq<usize>)
    requires
        circuit.wf(),
        group.members.len() > 0,
        fused(circuit, group).wf(circuit.num_qubits, circuit.num_clbits),
        contracted(circuit, group) is Ok,
        ranked(circuit, members),
        members.no_duplicates(),
        forall|k: int|
            0 <= k < members.len() ==> circuit.has(#[trigger] members[k])
                && !group.members.contains(members[k]),
    ensures
        ranked(contracted(circuit, group)->Ok_0, members),
{
    let after = contracted(circuit, group)->Ok_0;
    lemma_contracted(circuit, group);
    assert forall|k: int, l: int|
        0 <= k < l < members.len() && share_a_wire(
            after.get(#[trigger] members[k]),
            after.get(#[trigger] members[l]),
        ) implies after.at(members[k]) < after.at(members[l]) by {
        assert(circuit.has(members[k]) && circuit.has(members[l]));
        let i = circuit.at(members[k]);
        let j = circuit.at(members[l]);
        assert(circuit.ops[i].node == members[k]);
        assert(circuit.ops[j].node == members[l]);
        assert(after.get(members[k]) == circuit.get(members[k]));
        assert(after.get(members[l]) == circuit.get(members[l]));
        assert(i < j);
        lemma_contraction_keeps_wire_order(circuit, group, i, j);
        assert(members[k] != members[l]);
    }
}

/// Contracting groups one after another changes nothing of what is done on a wire.
proof fn lemma_fused_line(
    circuit: CircuitModel,
    groups: Seq<GroupModel>,
    count: nat,
    frame: Seq<usize>,
    wire: Option<usize>,
)
    requires
        circuit.wf(),
        valid(circuit),
        circuit.num_qubits <= usize::MAX,
        circuit.num_clbits <= usize::MAX,
        run_size(circuit.ops) <= usize::MAX,
        count <= groups.len(),
        each_once(groups),
        forall|g: int|
            0 <= g < groups.len() ==> group_sound(circuit, #[trigger] groups[g]) && ranked(
                circuit,
                groups[g].members,
            ),
        tells_apart(frame, circuit.num_qubits),
        wire matches Some(w) ==> w < circuit.num_qubits,
    ensures
        ({
            let after = fused_upto(circuit, groups, count).circuit;
            &&& after.wf()
            &&& valid(after)
            &&& after.num_qubits == circuit.num_qubits
            &&& after.num_clbits == circuit.num_clbits
            &&& run_size(after.ops) <= run_size(circuit.ops)
            &&& kept(circuit, groups.take(count as int), after)
            &&& forall|g: int|
                count <= g < groups.len() ==> ranked(after, (#[trigger] groups[g]).members)
            &&& wire matches Some(w) ==> line(after.ops, frame, frame[w as int]) == line(
                circuit.ops,
                frame,
                frame[w as int],
            )
        }),
    decreases count,
{
    if count > 0 {
        let last = count - 1;
        lemma_fused_line(circuit, groups, (count - 1) as nat, frame, wire);
        let outcome = fused_upto(circuit, groups, (count - 1) as nat);
        let before = outcome.circuit;
        let group = groups[last];
        let after = fused_upto(circuit, groups, count).circuit;
        lemma_grouped_in_take(groups, last);
        assert forall|g: int, k: int|
            last <= g < groups.len() && 0 <= k < groups[g].members.len() implies before.has(
            #[trigger] groups[g].members[k],
        ) && before.get(groups[g].members[k]) == circuit.get(groups[g].members[k]) by {
            let node = groups[g].members[k];
            assert(groups[g].members.contains(node));
            assert(group_sound(circuit, groups[g]));
            assert(circuit.has(node));
            assert(!grouped_in(groups.take(last), node)) by {
                if grouped_in(groups.take(last), node) {
                    let few = groups.take(last);
                    let h = choose|h: int|
                        0 <= h < few.len() && (#[trigger] few[h]).members.contains(node);
                    assert(groups[h].members.contains(node));
                }
            }
        }
        assert forall|k: int| 0 <= k < group.members.len() implies before.has(
            #[trigger] group.members[k],
        ) && before.get(group.members[k]) == circuit.get(group.members[k]) by {
            assert(groups[last].members[k] == group.members[k]);
        }
        lemma_sound_of(circuit, before, group);
        assert(group.members.no_duplicates());
        if outcome.error is None && group.members.len() > 1 && contracted(before, group) is Ok {
            lemma_contracted_line(before, group, frame, wire);
            lemma_contracted(before, group);
            lemma_contracted_stays_valid(before, group);
            assert forall|g: int| count <= g < groups.len() implies ranked(
                after,
                (#[trigger] groups[g]).members,
            ) by {
                let members = groups[g].members;
                assert(members.no_duplicates());
                assert forall|k: int| 0 <= k < members.len() implies before.has(#[trigger] members[k])
                    && !group.members.contains(members[k]) by {
                    assert(groups[g].members[k] == members[k]);
                    assert(groups[g].members.contains(members[k]));
                    if group.members.contains(members[k]) {
                        assert(groups[last].members.contains(members[k]));
                    }
                }
                lemma_stays_ranked(before, group, members);
            }
        }
        assert forall|node: usize| #[trigger] circuit.has(node) && !grouped_in(
            groups.take(count as int),
            node,
        ) implies after.has(node) && after.get(node) == circuit.get(node) by {
            assert(groups.take(count as int) == groups.take(last + 1));
            assert(!grouped_in(groups.take(last + 1), node));
            assert(!grouped_in(groups.take(last), node) && !group.members.contains(node));
            assert(before.has(node) && before.get(node) == circuit.get(node));
        }
    } else {
        assert(groups.take(0) =~= Seq::<GroupModel>::empty());
    }
}

/// Replacing the body of a box by one that does the same on a wire changes nothing of what is done on the wire.
proof fn lemma_with_body_line(
    circuit: CircuitModel,
    node: usize,
    body: CircuitModel,
    frame: Seq<usize>,
    w: usize,
)
    requires
        circuit.wf(),
        circuit.has(node),
        circuit.get(node).op.is_content_box(),
        circuit.get(node).blocks.len() == 1,
        body.wf(),
        body.num_qubits == circuit.get(node).qubits.len(),
        body.num_clbits == circuit.get(node).clbits.len(),
        tells_apart(frame, circuit.num_qubits),
        w < circuit.num_qubits,
        circuit.get(node).touches(w) ==> line(
            body.ops,
            through(frame, circuit.get(node).qubits),
            frame[w as int],
        ) == line(
            circuit.get(node).blocks[0].ops,
            through(frame, circuit.get(node).qubits),
            frame[w as int],
        ),
    ensures
        line(with_body(circuit, node, body).ops, frame, frame[w as int]) == line(
            circuit.ops,
            frame,
            frame[w as int],
        ),
{
    let q = frame[w as int];
    let at = circuit.at(node);
    let inst = circuit.ops[at];
    assert(inst.node == node);
    assert(inst.wf(circuit.num_qubits, circuit.num_clbits));
    let changed = InstructionModel { blocks: seq![body], ..inst };
    let ops = circuit.ops;
    let after = ops.update(at, changed);
    assert(after =~= ops.take(at) + seq![changed] + ops.skip(at + 1));
    assert(ops =~= ops.take(at) + seq![inst] + ops.skip(at + 1));
    lemma_line_add(ops.take(at) + seq![changed], ops.skip(at + 1), frame, q);
    lemma_line_add(ops.take(at), seq![changed], frame, q);
    lemma_line_add(ops.take(at) + seq![inst], ops.skip(at + 1), frame, q);
    lemma_line_add(ops.take(at), seq![inst], frame, q);
    lemma_line_one(changed, frame, q);
    lemma_line_one(inst, frame, q);
    if !inst.touches(w) {
        assert(changed.wf(circuit.num_qubits, circuit.num_clbits)) by {
            assert(changed.blocks =~= seq![body]);
        }
        lemma_off_wire_one(inst, circuit.num_qubits, circuit.num_clbits, frame, w);
        lemma_off_wire_one(changed, circuit.num_qubits, circuit.num_clbits, frame, w);
    }
}

/// Merging the collectors of every scope changes nothing of what is done on a wire.
proof fn lemma_merged_line(circuit: CircuitModel, frame: Seq<usize>, wire: Option<usize>)
    requires
        circuit.wf(),
        valid(circuit),
        circuit.num_qubits <= usize::MAX,
        circuit.num_clbits <= usize::MAX,
        run_size(circuit.ops) <= usize::MAX,
        tells_apart(frame, circuit.num_qubits),
        wire matches Some(w) ==> w < circuit.num_qubits,
    ensures
        ({
            let after = merged(circuit).circuit;
            &&& after.wf()
            &&& valid(after)
            &&& after.num_qubits == circuit.num_qubits
            &&& after.num_clbits == circuit.num_clbits
            &&& wire matches Some(w) ==> line(after.ops, frame, frame[w as int]) == line(
                circuit.ops,
                frame,
                frame[w as int],
            )
        }),
    decreases circuit, 1nat, 0nat,
{
    let ops = circuit.ops;
    let groups = grouped(circuit.num_qubits, ops);
    lemma_valid_is_equipped(circuit);
    lemma_each_collector_in_one_group(circuit);
    assert(ops.take(ops.len() as int) =~= ops);
    assert forall|g: int| 0 <= g < groups.len() implies group_sound(circuit, #[trigger] groups[g])
        && ranked(circuit, groups[g].members) by {
        lemma_groups_ascend(circuit, ops.len() as int, g);
    }
    lemma_fused_line(circuit, groups, groups.len(), frame, wire);
    assert(groups.take(groups.len() as int) =~= groups);
    let outer = siblings_fused(circuit);
    if outer.error is None {
        assert forall|i: int| 0 <= i < ops.len() && (#[trigger] ops[i]).op.is_content_box() implies outer.circuit.has(
            ops[i].node,
        ) && outer.circuit.get(ops[i].node) == ops[i] by {
            lemma_get(circuit, ops[i].node, i);
            assert(!grouped_in(groups, ops[i].node)) by {
                if grouped_in(groups, ops[i].node) {
                    let j = choose|j: int|
                        0 <= j < ops.len() && (#[trigger] circuit.ops[j]).node == ops[i].node
                            && circuit.ops[j].op.is_collector();
                    lemma_get(circuit, ops[i].node, j);
                }
            }
        }
        lemma_bodies_line(circuit, outer.circuit, ops.len() as int, frame, wire);
    }
}

/// Merging the collectors in the bodies of some content boxes changes nothing of what is done on a wire.
proof fn lemma_bodies_line(
    circuit: CircuitModel,
    outer: CircuitModel,
    count: int,
    frame: Seq<usize>,
    wire: Option<usize>,
)
    requires
        circuit.wf(),
        valid(circuit),
        circuit.num_qubits <= usize::MAX,
        circuit.num_clbits <= usize::MAX,
        run_size(circuit.ops) <= usize::MAX,
        tells_apart(frame, circuit.num_qubits),
        wire matches Some(w) ==> w < circuit.num_qubits,
        outer.wf(),
        valid(outer),
        outer.num_qubits == circuit.num_qubits,
        outer.num_clbits == circuit.num_clbits,
        0 <= count <= circuit.ops.len(),
        forall|i: int|
            0 <= i < circuit.ops.len() && (#[trigger] circuit.ops[i]).op.is_content_box()
                ==> outer.has(circuit.ops[i].node) && outer.get(circuit.ops[i].node)
                == circuit.ops[i],
    ensures
        ({
            let after = bodies_merged(circuit.ops.take(count), outer).circuit;
            &&& after.wf()
            &&& valid(after)
            &&& after.num_qubits == circuit.num_qubits
            &&& after.num_clbits == circuit.num_clbits
            &&& forall|i: int|
                count <= i < circuit.ops.len() && (#[trigger] circuit.ops[i]).op.is_content_box()
                    ==> after.has(circuit.ops[i].node) && after.get(circuit.ops[i].node)
                    == circuit.ops[i]
            &&& wire matches Some(w) ==> line(after.ops, frame, frame[w as int]) == line(
                outer.ops,
                frame,
                frame[w as int],
            )
        }),
    decreases circuit, 0nat, count,
{
    if count > 0 {
        let ops = circuit.ops;
        let last = count - 1;
        let inst = ops[last];
        assert(ops.take(count).drop_last() =~= ops.take(last));
        assert(ops.take(count).last() == inst);
        lemma_bodies_line(circuit, outer, last, frame, wire);
        let outcome = bodies_merged(ops.take(last), outer);
        let before = outcome.circuit;
        if outcome.error is None && inst.op.is_content_box() && inst.blocks.len() == 1 {
            let body = inst.blocks[0];
            let read = through(frame, inst.qubits);
            assert(before.has(inst.node) && before.get(inst.node) == inst);
            assert(inst.wf(circuit.num_qubits, circuit.num_clbits));
            assert(valid_at(circuit.ops[last]));
            lemma_through_apart(frame, circuit.num_qubits, inst.qubits);
            lemma_size_of_removal(ops, last);
            lemma_blocks_size_one(inst.blocks);
            assert(decreases_to!(circuit => circuit.ops));
            assert(decreases_to!(circuit.ops => circuit.ops[last]));
            assert(decreases_to!(circuit.ops[last] => circuit.ops[last].blocks));
            assert(decreases_to!(circuit.ops[last].blocks => circuit.ops[last].blocks[0]));
            let inside: Option<usize> = match wire {
                Some(w) => if inst.touches(w) {
                    Some(inst.local(w))
                } else {
                    None
                },
                None => None,
            };
            if let Some(w) = wire {
                if inst.touches(w) {
                    assert(inst.qubits[inst.qubits.index_of(w)] == w);
                    assert(read[inst.local(w) as int] == frame[w as int]);
                }
            }
            lemma_merged_line(body, read, inside);
            let inner = merged(body).circuit;
            lemma_with_body(before, inst.node, inner);
            lemma_with_body_stays_valid(before, inst.node, inner);
            if let Some(w) = wire {
                lemma_with_body_line(before, inst.node, inner, frame, w);
            }
            let after = with_body(before, inst.node, inner);
            assert forall|i: int| count <= i < ops.len() && (#[trigger] ops[i]).op.is_content_box() implies after.has(
                ops[i].node,
            ) && after.get(ops[i].node) == ops[i] by {
                assert(before.has(ops[i].node));
                assert(ops[last].node != ops[i].node);
            }
        }
    } else {
        assert(circuit.ops.take(0) =~= Seq::<InstructionModel>::empty());
    }
}

/// Merging keeps the order of what shares a qubit, inside collectors too: read flat, with boxes and collect boxes
/// dissolved into circuit qubits, the steps on a qubit are the same steps in the same order before and after, for
/// every qubit and wherever merging stops. It holds of a collector that leaves its box to the right as of one that
/// leaves it to the left, and of collectors that fuse where they stand.
pub proof fn lemma_merging_keeps_the_order_on_every_qubit(root: CircuitModel, qubit: usize)
    requires
        root.wf(),
        valid(root),
        run_size(root.ops) <= usize::MAX,
        root.num_qubits <= usize::MAX,
        root.num_clbits <= usize::MAX,
    ensures
        on_qubit(steps_of(collectors_merged(root).circuit), qubit) == on_qubit(
            steps_of(root),
            qubit,
        ),
{
    lemma_valid_is_equipped(root);
    lemma_escapes_keep_the_order_on_every_qubit(root, qubit);
    let escaped = settled(root);
    if escaped.error is None {
        lemma_settled_is_a_fixed_point(root);
        lemma_escapes_keep_valid(root);
        let between = escaped.circuit;
        let frame = own_qubits(between.num_qubits);
        lemma_own_apart(between.num_qubits);
        if qubit < between.num_qubits {
            lemma_merged_line(between, frame, Some(qubit));
        } else {
            lemma_merged_line(between, frame, None);
            lemma_nothing_off_the_circuit(between, qubit);
            lemma_nothing_off_the_circuit(merged(between).circuit, qubit);
        }
    }
}

/// A group keeps every subsystem of every member.
proof fn lemma_subsystems_kept(circuit: CircuitModel, count: int, g: int, k: int, s: int)
    requires
        circuit.wf(),
        equipped(circuit),
        0 <= count <= circuit.ops.len(),
        0 <= g < grouped(circuit.num_qubits, circuit.ops.take(count)).len(),
        0 <= k < grouped(circuit.num_qubits, circuit.ops.take(count))[g].members.len(),
        0 <= s < subsystems_of(
            circuit.get(grouped(circuit.num_qubits, circuit.ops.take(count))[g].members[k]),
        ).len(),
    ensures
        grouped(circuit.num_qubits, circuit.ops.take(count))[g].subsystems.contains(
            subsystems_of(
                circuit.get(grouped(circuit.num_qubits, circuit.ops.take(count))[g].members[k]),
            )[s],
        ),
    decreases count,
{
    if count > 0 {
        let i = count - 1;
        let groups = grouped(circuit.num_qubits, circuit.ops.take(i));
        let after = grouped(circuit.num_qubits, circuit.ops.take(count));
        let inst = circuit.ops[i];
        assert(circuit.ops.take(count).drop_last() =~= circuit.ops.take(i));
        assert(circuit.ops.take(count).last() == inst);
        lemma_get(circuit, inst.node, i);
        let wanted = subsystems_of(circuit.get(after[g].members[k]))[s];
        match inst.op.collect() {
            None => {
                lemma_subsystems_kept(circuit, i, g, k, s);
            },
            Some(collect) => {
                let home = first_home(groups, inst.qubits, collect.parts[0].synthesizer, 0);
                lemma_first_home(groups, inst.qubits, collect.parts[0].synthesizer, 0);
                if home < groups.len() {
                    if g != home {
                        lemma_subsystems_kept(circuit, i, g, k, s);
                    } else if k < groups[g].members.len() {
                        assert(after[g].members[k] == groups[g].members[k]);
                        lemma_subsystems_kept(circuit, i, g, k, s);
                        let m = groups[g].subsystems.index_of(wanted);
                        assert(groups[g].subsystems[m] == wanted);
                        assert(after[g].subsystems[m] == wanted);
                    } else {
                        assert(after[g].members[k] == inst.node);
                        assert(after[g].subsystems[groups[g].subsystems.len() + s] == wanted);
                    }
                } else if g < groups.len() {
                    lemma_subsystems_kept(circuit, i, g, k, s);
                } else {
                    assert(after[g] == opened(circuit.num_qubits, inst, collect));
                    assert(after[g].members[k] == inst.node);
                    assert(after[g].subsystems[s] == wanted);
                }
            },
        }
    }
}

/// The qubits of a collector's subsystems.
pub open spec fn subsystems_of(inst: InstructionModel) -> Seq<Seq<usize>> {
    groups_of(inst.op.collect()->Some_0.partition, inst.qubits)
}

/// A collector that others fuse into does for them what each did: it is on exactly their qubits, qubits that one of
/// them synthesized together are still synthesized together, and every part is synthesized the way they were.
pub proof fn lemma_fused_collector_covers_its_members(
    circuit: CircuitModel,
    g: int,
    k: int,
    s: int,
    a: int,
    b: int,
)
    requires
        circuit.wf(),
        circuit.num_qubits <= usize::MAX,
        equipped(circuit),
        0 <= g < grouped(circuit.num_qubits, circuit.ops).len(),
        0 <= k < grouped(circuit.num_qubits, circuit.ops)[g].members.len(),
        0 <= s < subsystems_of(
            circuit.get(grouped(circuit.num_qubits, circuit.ops)[g].members[k]),
        ).len(),
        0 <= a < subsystems_of(
            circuit.get(grouped(circuit.num_qubits, circuit.ops)[g].members[k]),
        )[s].len(),
        0 <= b < subsystems_of(
            circuit.get(grouped(circuit.num_qubits, circuit.ops)[g].members[k]),
        )[s].len(),
    ensures
        ({
            let group = grouped(circuit.num_qubits, circuit.ops)[g];
            let member = circuit.get(group.members[k]);
            let one = fused(circuit, group);
            &&& one.op.collect() is Some
            &&& forall|qubit: usize| #[trigger]
                one.qubits.contains(qubit) <==> exists|m: int|
                    0 <= m < group.members.len() && (#[trigger] circuit.get(
                        group.members[m],
                    )).qubits.contains(qubit)
            &&& share_a_part(
                subsystems_of(one),
                subsystems_of(member)[s][a],
                subsystems_of(member)[s][b],
            )
            &&& forall|p: int|
                0 <= p < one.op.collect()->Some_0.parts.len() ==> (
                #[trigger] one.op.collect()->Some_0.parts[p]).synthesizer
                    == member.op.collect()->Some_0.parts[0].synthesizer
        }),
{
    let count = circuit.ops.len() as int;
    assert(circuit.ops.take(count) =~= circuit.ops);
    let group = grouped(circuit.num_qubits, circuit.ops)[g];
    let member = circuit.get(group.members[k]);
    let one = fused(circuit, group);
    let frame = ascending(group.span, circuit.num_qubits);
    lemma_each_collector_in_one_group(circuit);
    assert(group_sound(circuit, group));
    lemma_members_synthesize_alike(circuit, g, k);
    lemma_subsystems_kept(circuit, count, g, k, s);
    lemma_ascending(group.span, circuit.num_qubits);
    lemma_span_on_frame(circuit, group);
    let collect = merged_collect(group, frame);
    assert(collect_box(collect).collect() == Some(collect));
    assert forall|qubit: usize| #[trigger] one.qubits.contains(qubit) <==> exists|m: int|
        0 <= m < group.members.len() && (#[trigger] circuit.get(group.members[m])).qubits.contains(
            qubit,
        ) by {
        if group.span.contains(qubit) {
            let m = choose|m: int|
                0 <= m < group.members.len() && (#[trigger] circuit.get(
                    group.members[m],
                )).qubits.contains(qubit);
            let inst = circuit.get(group.members[m]);
            assert(circuit.has(group.members[m]));
            assert(inst.wf(circuit.num_qubits, circuit.num_clbits));
            assert(inst.qubits[inst.qubits.index_of(qubit)] == qubit);
        }
    }
    let places = group.subsystems.map_values(|subsystem: Seq<usize>| places_in(frame, subsystem));
    assert(groups_below(frame.len(), places)) by {
        assert forall|t: int, m: int| 0 <= t < places.len() && 0 <= m < places[t].len() implies (
        #[trigger] places[t][m]) < frame.len() by {
            assert(on_frame(frame, group.subsystems[t]));
            lemma_places(frame, group.subsystems[t]);
        }
    }
    let wanted = subsystems_of(member)[s];
    let t = group.subsystems.index_of(wanted);
    assert(group.subsystems[t] == wanted);
    assert(on_frame(frame, group.subsystems[t]));
    let x = places[t][a];
    let y = places[t][b];
    assert(x < frame.len() && y < frame.len());
    assert(frame.contains(wanted[a]) && frame.contains(wanted[b]));
    assert(frame[x as int] == wanted[a] && frame[y as int] == wanted[b]);
    assert(places[t].contains(x) && places[t].contains(y));
    assert(together(places, x, y));
    let chain = seq![x, y];
    assert(is_chain(places, chain)) by {
        assert forall|m: int| 0 <= m < chain.len() - 1 implies together(
            places,
            #[trigger] chain[m],
            chain[m + 1],
        ) by {
            assert(m == 0);
        }
    }
    assert(chain[0] == x && chain.last() == y);
    assert(chained(places, x, y));
    lemma_parts_are_chains(frame.len(), places, x, y);
    let parts = collect.partition;
    let p = choose|p: int|
        0 <= p < parts.len() && (#[trigger] parts[p]).contains(x) && parts[p].contains(y);
    let said = subsystems_of(one)[p];
    assert(said[parts[p].index_of(x)] == wanted[a]);
    assert(said[parts[p].index_of(y)] == wanted[b]);
    assert(said.contains(wanted[a]) && said.contains(wanted[b]));
}

} // verus!
