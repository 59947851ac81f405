//! What a circuit has to be for a pass to be run on it, as tests a caller can make.
//!
//! A pass asks of a circuit that it is well formed, and some ask something of its collectors and emissions, or
//! that what comes of it can still be counted. Each of these has a test here, and so has what a pass over a
//! graph asks of the graph.

use vstd::prelude::*;

use crate::circuit::blocks_size;
use crate::circuit::lemma_run_size_take;
use crate::circuit::run_size;
use crate::circuit::wires_below;
use crate::circuit::Circuit;
use crate::circuit::CircuitModel;
use crate::circuit::InstructionModel;
use crate::circuit::Operation;
use crate::circuit::OperationModel;
use crate::collections::IndexSet;
use crate::distributions::DistributionTableModel;
use crate::emission_circuit_navigation::collect_annotation;
use crate::emission_circuit_navigation::is_box;
use crate::emission_circuit_navigation::is_collector;
use crate::emission_circuit_navigation::through;
use crate::parameters::ExpressionModel;
use crate::partition::total;
use crate::track::beyond;
use crate::track::crossings_from;
use crate::track::conjugations;
use crate::track::conjugations_at;
use crate::track::conjugations_met;
use crate::track::edges_at;
use crate::track::edges_between;
use crate::track::edges_met;
use crate::track::ends_after;
use crate::track::ends_on;
use crate::track::first_refused;
use crate::track::flow_of;
use crate::track::join_reach;
use crate::track::joined;
use crate::track::lemma_counts_grow;
use crate::track::lemma_first_missing;
use crate::track::lemma_first_refused;
use crate::track::lemma_tried_bounds;
use crate::track::nodes_placed;
use crate::track::passed;
use crate::track::path_to;
use crate::track::positions_known;
use crate::track::positions_tried;
use crate::track::room_for_track;
use crate::track::run_crossings;
use crate::track::target_of;
use crate::track::CrossingModel;
use crate::track::FlatCollector;
use crate::track::Flow;
use crate::track::GateKey;
use crate::track::ItemModel;
use crate::track::ParamsModel;
use crate::track::TrackModel;
use crate::virtual_flow_graph::step_gates;
use crate::virtual_flow_graph::AbsorbedGateModel;
use crate::virtual_flow_graph::Direction;
use crate::virtual_flow_graph::VirtualFlowGraph;

use super::build::demand;
use super::build::demand_of;
use super::escape_collectors::equipped;
use super::escape_collectors::equipped_at;
use super::lower::absorbed;
use super::lower::absorbed_in;
use super::lower::angles;
use super::lower::angles_of;
use super::lower::flat_item;
use super::lower::flattened;
use super::lower::flattened_one;
use super::lower::holds_steps;
use super::lower::lemma_angles_take;
use super::lower::lowerable;
use super::lower::lowerable_one;
use super::lower::names_synthesizer;
use super::lower::names_synthesizers;
use super::lower::param_count;
use super::lower::range;
use super::lower::ranged;
use super::lower::read_steps;
use super::lower::reading_of;
use super::lower::Reading;
use super::merge_parallel_nodes::edges_touching;
use super::merge_parallel_nodes::room_to_merge;
use super::validity::emission_travels;
use super::validity::emissions_travel;
use super::validity::valid;
use super::validity::valid_at;

verus! {

// --- How much there is to a circuit --------------------------------------------------------------

/// How much there is to an instruction: itself, once to be numbered and once to be met, its qubits, its
/// parameters, and what it holds.
pub open spec fn bulk_of(inst: InstructionModel) -> nat
    decreases inst, 0nat,
{
    2 + inst.qubits.len() + inst.params.len() + blocks_bulk(inst.blocks)
}

/// How much there is to a list of circuits.
pub open spec fn blocks_bulk(blocks: Seq<CircuitModel>) -> nat
    decreases blocks, 2nat,
{
    if blocks.len() == 0 {
        0
    } else {
        blocks_bulk(blocks.drop_last()) + bulk(blocks.last().ops)
    }
}

/// How much there is to a run of instructions.
pub open spec fn bulk(ops: Seq<InstructionModel>) -> nat
    decreases ops, 1nat,
{
    if ops.len() == 0 {
        0
    } else {
        bulk(ops.drop_last()) + bulk_of(ops.last())
    }
}

/// How many emissions a run holds outside collectors.
pub open spec fn emission_count(ops: Seq<InstructionModel>) -> nat
    decreases ops,
{
    if ops.len() == 0 {
        0
    } else {
        emission_count(ops.drop_last()) + emissions_in(ops.last())
    }
}

/// How many emissions an instruction is or holds outside collectors.
pub open spec fn emissions_in(inst: InstructionModel) -> nat
    decreases inst,
{
    if inst.op is Emit {
        1
    } else if !inst.op.is_collector() && inst.op.is_box() && inst.blocks.len() == 1 {
        emission_count(inst.blocks[0].ops)
    } else {
        0
    }
}

/// Whether a run is small enough that whatever comes of lowering it can be numbered: every emission meets no more
/// than there is to the run.
pub open spec fn lowering_bounded(ops: Seq<InstructionModel>) -> bool {
    (emission_count(ops) + 3) * bulk(ops) <= u32::MAX
}

// --- How much there is to a track ----------------------------------------------------------------

/// How much there is to some gates: each, and its qubits.
spec fn gates_cost(gates: Seq<AbsorbedGateModel>) -> nat
    decreases gates.len(),
{
    if gates.len() == 0 {
        0
    } else {
        gates_cost(gates.drop_last()) + 1 + gates.last().qubits.len()
    }
}

/// How much there is to a position to whatever passes it, or to the emission that sets out from it.
spec fn item_cost(item: ItemModel, collectors: Seq<FlatCollector>) -> nat {
    match item {
        ItemModel::Emission(_, qubits) => qubits.len(),
        ItemModel::Collector(index) => gates_cost(step_gates(collectors[index as int].steps)),
        ItemModel::Gate(_, qubits) => 1 + qubits.len(),
        _ => 0,
    }
}

/// How much there is to some positions.
spec fn cost(items: Seq<ItemModel>, collectors: Seq<FlatCollector>) -> nat
    decreases items.len(),
{
    if items.len() == 0 {
        0
    } else {
        cost(items.drop_last(), collectors) + item_cost(items.last(), collectors)
    }
}

/// How many of some positions are emissions.
spec fn setting_out(items: Seq<ItemModel>) -> nat
    decreases items.len(),
{
    if items.len() == 0 {
        0
    } else {
        setting_out(items.drop_last()) + (if items.last() is Emission {
            1nat
        } else {
            0nat
        })
    }
}

proof fn lemma_cost_of_steps(
    items: Seq<ItemModel>,
    one: Seq<FlatCollector>,
    other: Seq<FlatCollector>,
)
    requires
        forall|i: int|
            0 <= i < items.len() ==> ((#[trigger] items[i]) matches ItemModel::Collector(index)
                ==> one[index as int].steps == other[index as int].steps),
    ensures
        cost(items, one) == cost(items, other),
    decreases items.len(),
{
    if items.len() > 0 {
        let front = items.drop_last();
        assert forall|i: int| 0 <= i < front.len() implies ((
        #[trigger] front[i]) matches ItemModel::Collector(index) ==> one[index as int].steps
            == other[index as int].steps) by {
            assert(items[i] == front[i]);
        }
        lemma_cost_of_steps(front, one, other);
        assert(items[items.len() - 1] == items.last());
    }
}

proof fn lemma_cost_take(items: Seq<ItemModel>, collectors: Seq<FlatCollector>, k: int)
    requires
        0 <= k <= items.len(),
    ensures
        cost(items.take(k), collectors) <= cost(items, collectors),
    decreases items.len(),
{
    if k < items.len() {
        assert(items.drop_last().take(k) =~= items.take(k));
        lemma_cost_take(items.drop_last(), collectors, k);
    } else {
        assert(items.take(k) =~= items);
    }
}

proof fn lemma_cost_skip(items: Seq<ItemModel>, collectors: Seq<FlatCollector>, k: int)
    requires
        0 <= k < items.len(),
    ensures
        cost(items.skip(k), collectors) == item_cost(items[k], collectors) + cost(
            items.skip(k + 1),
            collectors,
        ),
    decreases items.len(),
{
    if k == items.len() - 1 {
        assert(items.skip(k).drop_last() =~= Seq::<ItemModel>::empty());
        assert(items.skip(k + 1) =~= Seq::<ItemModel>::empty());
        assert(cost(items.skip(k).drop_last(), collectors) == 0);
    } else {
        let front = items.drop_last();
        lemma_cost_skip(front, collectors, k);
        assert(items.skip(k).drop_last() =~= front.skip(k));
        assert(items.skip(k + 1).drop_last() =~= front.skip(k + 1));
        assert(items.skip(k).last() == items.last());
        assert(items.skip(k + 1).last() == items.last());
    }
}

proof fn lemma_cost_from(items: Seq<ItemModel>, collectors: Seq<FlatCollector>, k: int)
    requires
        0 <= k <= items.len(),
    ensures
        cost(items.skip(k), collectors) <= cost(items, collectors),
    decreases k,
{
    if k == 0 {
        assert(items.skip(0) =~= items);
    } else {
        lemma_cost_from(items, collectors, k - 1);
        lemma_cost_skip(items, collectors, k - 1);
    }
}

// --- What an emission meets ----------------------------------------------------------------------

/// How many qubits some crossings have, together.
spec fn wires(crossings: Seq<CrossingModel>) -> nat
    decreases crossings.len(),
{
    if crossings.len() == 0 {
        0
    } else {
        wires(crossings.drop_last()) + crossings.last().qubits.len()
    }
}

proof fn lemma_wires_take(crossings: Seq<CrossingModel>, k: int)
    requires
        0 <= k <= crossings.len(),
    ensures
        wires(crossings.take(k)) <= wires(crossings),
    decreases crossings.len(),
{
    if k < crossings.len() {
        let front = crossings.drop_last();
        assert(front.take(k) =~= crossings.take(k));
        lemma_wires_take(front, k);
    } else {
        assert(crossings.take(k) =~= crossings);
    }
}

proof fn lemma_wires_add(left: Seq<CrossingModel>, right: Seq<CrossingModel>)
    ensures
        wires(left + right) == wires(left) + wires(right),
    decreases right.len(),
{
    if right.len() == 0 {
        assert(left + right =~= left);
    } else {
        lemma_wires_add(left, right.drop_last());
        assert((left + right).drop_last() =~= left + right.drop_last());
        assert((left + right).last() == right.last());
    }
}

proof fn lemma_wires_one(crossing: CrossingModel)
    ensures
        wires(seq![crossing]) == crossing.qubits.len(),
{
    let one = seq![crossing];
    assert(one.drop_last() =~= Seq::<CrossingModel>::empty());
    assert(wires(one.drop_last()) == 0);
    assert(one.last() == crossing);
}

/// Crossing a collector meets its gates, whichever way.
proof fn lemma_run_cost(position: int, gates: Seq<AbsorbedGateModel>, direction: Direction)
    ensures
        run_crossings(position, gates, direction).len() + wires(
            run_crossings(position, gates, direction),
        ) == gates_cost(gates),
    decreases gates.len(),
{
    let met = run_crossings(position, gates, direction);
    if gates.len() > 0 {
        let front = gates.drop_last();
        let before = run_crossings(position, front, direction);
        lemma_run_cost(position, front, direction);
        match direction {
            Direction::Right => {
                let last = met.last();
                assert(met =~= before + seq![last]);
                lemma_wires_add(before, seq![last]);
                lemma_wires_one(last);
                assert(last.qubits == gates.last().qubits);
            },
            Direction::Left => {
                let first = met[0];
                assert(met =~= seq![first] + before);
                lemma_wires_add(seq![first], before);
                lemma_wires_one(first);
                assert(first.qubits == gates.last().qubits);
            },
        }
    } else {
        assert(met =~= Seq::<CrossingModel>::empty());
    }
}

/// What is met from a position on is no more than there is to the positions passed.
proof fn lemma_crossings_cost(track: TrackModel, at: int, direction: Direction, target: usize)
    ensures
        ({
            let met = crossings_from(track, at, direction, target);
            let ahead = match direction {
                Direction::Right => if at < 0 {
                    track.items
                } else if at <= track.items.len() {
                    track.items.skip(at)
                } else {
                    Seq::empty()
                },
                Direction::Left => if at < 0 {
                    Seq::empty()
                } else if at < track.items.len() {
                    track.items.take(at + 1)
                } else {
                    track.items
                },
            };
            met.len() + wires(met) <= cost(ahead, track.collectors)
        }),
    decreases
            match direction {
                Direction::Right => track.items.len() - at,
                Direction::Left => at + 1,
            },
{
    if 0 <= at < track.items.len() {
        let met = crossings_from(track, at, direction, target);
        let next = beyond(at, direction);
        let rest = crossings_from(track, next, direction, target);
        lemma_crossings_cost(track, next, direction, target);
        match direction {
            Direction::Right => {
                lemma_cost_skip(track.items, track.collectors, at);
            },
            Direction::Left => {
                assert(track.items.take(at + 1).drop_last() =~= track.items.take(at));
                assert(track.items.take(at + 1).last() == track.items[at]);
                if at == 0 {
                    assert(track.items.take(0) =~= Seq::<ItemModel>::empty());
                }
            },
        }
        match track.items[at] {
            ItemModel::Collector(index) => {
                if index != target {
                    let gates = step_gates(track.collectors[index as int].steps);
                    let run = run_crossings(at, gates, direction);
                    lemma_run_cost(at, gates, direction);
                    lemma_wires_add(run, rest);
                    assert(met == run + rest);
                } else {
                    assert(met =~= Seq::<CrossingModel>::empty());
                }
            },
            ItemModel::Gate(gate, qubits) => {
                let one = CrossingModel { position: at as usize, offset: 0, gate, qubits };
                lemma_wires_one(one);
                lemma_wires_add(seq![one], rest);
                assert(met == seq![one] + rest);
            },
            _ => {
                assert(met == rest);
            },
        }
    }
}

proof fn lemma_ends_on(ends: Map<usize, Option<GateKey>>, qubits: Seq<usize>)
    ensures
        ends_on(ends, qubits).finite(),
        ends_on(ends, qubits).len() <= qubits.len(),
    decreases qubits.len(),
{
    if qubits.len() > 0 {
        lemma_ends_on(ends, qubits.drop_last());
    }
}

/// A walk needs no more nodes than it meets gates, and no more edges than those have qubits.
proof fn lemma_needs_cost(flow: Flow, crossings: Seq<CrossingModel>)
    ensures
        conjugations(flow, crossings).finite(),
        conjugations(flow, crossings).len() <= crossings.len(),
        edges_between(flow, crossings) <= wires(crossings),
    decreases crossings.len(),
{
    if crossings.len() > 0 {
        lemma_needs_cost(flow, crossings.drop_last());
        lemma_ends_on(ends_after(flow, crossings.drop_last()), crossings.last().qubits);
    }
}

/// Whatever an emission needs is no more than there is to the track, and to the emission.
proof fn lemma_path_cost(
    track: TrackModel,
    table: DistributionTableModel,
    position: int,
)
    requires
        0 <= position < track.items.len(),
    ensures
        conjugations_at(track, table, position).finite(),
        conjugations_at(track, table, position).len() <= cost(track.items, track.collectors),
        edges_at(track, table, position) <= cost(track.items, track.collectors) + item_cost(
            track.items[position],
            track.collectors,
        ),
        !(track.items[position] is Emission) ==> conjugations_at(track, table, position).len() == 0
            && edges_at(track, table, position) == 0,
{
    if let ItemModel::Emission(emission, qubits) = track.items[position] {
        if let Some(target) = target_of(track, table, position) {
            let direction = emission.direction->0;
            let at = beyond(position, direction);
            let flow = flow_of(track, table, position);
            let path = path_to(track, position, target);
            let way = passed(flow, path);
            lemma_first_refused(flow, path, 0);
            lemma_needs_cost(flow, way);
            lemma_ends_on(ends_after(flow, path), qubits);
            if let Some(k) = first_refused(flow, path, 0) {
                lemma_wires_take(path, k);
            }
            lemma_crossings_cost(track, at, direction, target);
            match direction {
                Direction::Right => {
                    lemma_cost_from(track.items, track.collectors, at);
                },
                Direction::Left => {
                    lemma_cost_take(track.items, track.collectors, at + 1);
                },
            }
        }
    }
}

proof fn lemma_setting_out_take(items: Seq<ItemModel>, k: int)
    requires
        0 <= k <= items.len(),
    ensures
        setting_out(items.take(k)) <= setting_out(items),
    decreases items.len(),
{
    if k < items.len() {
        assert(items.drop_last().take(k) =~= items.take(k));
        lemma_setting_out_take(items.drop_last(), k);
    } else {
        assert(items.take(k) =~= items);
    }
}

proof fn lemma_placed_bound(track: TrackModel, table: DistributionTableModel, count: nat)
    ensures
        nodes_placed(track, table, count) <= count,
    decreases count,
{
    if count > 0 {
        lemma_placed_bound(track, table, (count - 1) as nat);
    }
}

/// The emissions at the first positions need no more, together, than each of them could at most.
proof fn lemma_met_bound(
    track: TrackModel,
    table: DistributionTableModel,
    count: nat,
)
    requires
        count <= track.items.len(),
    ensures
        conjugations_met(track, table, count).len() <= setting_out(track.items.take(count as int))
            * cost(track.items, track.collectors),
        edges_met(track, table, count) <= setting_out(track.items.take(count as int)) * cost(
            track.items,
            track.collectors,
        ) + cost(track.items.take(count as int), track.collectors),
    decreases count,
{
    let all = cost(track.items, track.collectors);
    if count == 0 {
        assert(track.items.take(0) =~= Seq::<ItemModel>::empty());
        assert(setting_out(track.items.take(0)) * all == 0) by (nonlinear_arith)
            requires
                setting_out(track.items.take(0)) == 0,
        ;
    } else {
        let less = (count - 1) as nat;
        lemma_met_bound(track, table, less);
        lemma_path_cost(track, table, less as int);
        lemma_counts_grow(track, table, less, less);
        vstd::set_lib::lemma_len_union(
            conjugations_met(track, table, less),
            conjugations_at(track, table, less as int),
        );
        let few = track.items.take(less as int);
        let more = track.items.take(count as int);
        assert(more.drop_last() =~= few);
        assert(more.last() == track.items[less as int]);
        let before = setting_out(few);
        let after = setting_out(more);
        assert((before + 1) * all == before * all + all) by (nonlinear_arith);
        if track.items[less as int] is Emission {
            assert(after == before + 1);
        } else {
            assert(after == before);
        }
    }
}

// --- What a track is read from -------------------------------------------------------------------

proof fn lemma_blocks_bulk_one(blocks: Seq<CircuitModel>)
    requires
        blocks.len() == 1,
    ensures
        blocks_bulk(blocks) == bulk(blocks[0].ops),
{
    assert(blocks.drop_last() =~= Seq::<CircuitModel>::empty());
    assert(blocks_bulk(blocks.drop_last()) == 0);
}

/// There is no more to the gates read out of a body than to the body.
proof fn lemma_steps_cost(
    ops: Seq<InstructionModel>,
    qubits: Seq<usize>,
    met: Seq<ExpressionModel>,
)
    ensures
        read_steps(ops, qubits, met) matches Ok((steps, _)) ==> gates_cost(step_gates(steps)) <= bulk(
            ops,
        ),
    decreases ops.len(),
{
    if let Ok((steps, _)) = read_steps(ops, qubits, met) {
        if ops.len() > 0 {
            lemma_steps_cost(ops.drop_last(), qubits, met);
            let (before, _) = read_steps(ops.drop_last(), qubits, met)->Ok_0;
            let inst = ops.last();
            assert(bulk_of(inst) == 2 + inst.qubits.len() + inst.params.len() + blocks_bulk(inst.blocks));
            assert(through(qubits, inst.qubits).len() == inst.qubits.len());
            match inst.op {
                OperationModel::Gate(_) => {
                    assert(steps.drop_last() =~= before);
                    assert(step_gates(steps).drop_last() =~= step_gates(before));
                },
                OperationModel::Emit(_) => {
                    assert(steps.drop_last() =~= before);
                },
                _ => {},
            }
        } else {
            assert(step_gates(steps) =~= Seq::<AbsorbedGateModel>::empty());
        }
    }
}

/// What holds of a reading that went on from another: there is no more to what was added than to what was read.
spec fn read_on(before: TrackModel, after: TrackModel, more: nat, emissions: nat) -> bool {
    &&& after.wf()
    &&& after.collectors.len() - before.collectors.len() <= after.items.len() - before.items.len()
    &&& after.items.len() + cost(after.items, after.collectors) <= before.items.len() + cost(
        before.items,
        before.collectors,
    ) + more
    &&& setting_out(after.items) <= setting_out(before.items) + emissions
}

proof fn lemma_run_reads_on(
    ops: Seq<InstructionModel>,
    scope: Seq<usize>,
    frame: Seq<usize>,
    state: Reading,
)
    requires
        state.track.wf(),
        state.track.collectors.len() <= state.track.items.len(),
        state.track.items.len() + cost(state.track.items, state.track.collectors) + bulk(ops)
            <= u32::MAX,
    ensures
        flattened(ops, scope, frame, state) matches Ok(after) ==> read_on(
            state.track,
            after.track,
            bulk(ops),
            emission_count(ops),
        ),
    decreases ops,
{
    if ops.len() > 0 {
        lemma_run_reads_on(ops.drop_last(), scope, frame, state);
        if let Ok(so_far) = flattened(ops.drop_last(), scope, frame, state) {
            lemma_one_reads_on(ops.last(), scope, frame, so_far);
        }
    }
}

proof fn lemma_one_reads_on(
    inst: InstructionModel,
    scope: Seq<usize>,
    frame: Seq<usize>,
    state: Reading,
)
    requires
        state.track.wf(),
        state.track.collectors.len() <= state.track.items.len(),
        state.track.items.len() + cost(state.track.items, state.track.collectors) + bulk_of(inst)
            <= u32::MAX,
    ensures
        flattened_one(inst, scope, frame, state) matches Ok(after) ==> read_on(
            state.track,
            after.track,
            bulk_of(inst),
            emissions_in(inst),
        ),
    decreases inst,
{
    let before = state.track;
    assert(bulk_of(inst) == 2 + inst.qubits.len() + inst.params.len() + blocks_bulk(inst.blocks));
    if let Ok(reading) = flattened_one(inst, scope, frame, state) {
        let after = reading.track;
        let qubits = through(frame, inst.qubits);
        if inst.op.collect() is None && inst.op.is_box() && inst.blocks.len() > 0 {
            lemma_blocks_bulk_one(inst.blocks);
            assert(decreases_to!(inst => inst.blocks));
            assert(decreases_to!(inst.blocks => inst.blocks[0]));
            assert(decreases_to!(inst.blocks[0] => inst.blocks[0].ops));
            lemma_run_reads_on(inst.blocks[0].ops, scope.push(inst.node), qubits, state);
        } else {
            assert(after.items.drop_last() =~= before.items);
            let item = after.items.last();
            assert(after.items[before.items.len() as int] == item);
            assert forall|i: int| 0 <= i < after.items.len() implies ((
            #[trigger] after.items[i]) matches ItemModel::Collector(index) ==> index
                < after.collectors.len()) by {
                if i < before.items.len() {
                    assert(after.items[i] == before.items[i]);
                }
            }
            assert forall|i: int| 0 <= i < before.items.len() implies ((
            #[trigger] before.items[i]) matches ItemModel::Collector(index)
                ==> after.collectors[index as int].steps == before.collectors[index as int].steps) by {}
            lemma_cost_of_steps(before.items, after.collectors, before.collectors);
            assert(qubits.len() == inst.qubits.len());
            if inst.op.collect() is Some {
                let body = if inst.blocks.len() == 1 {
                    inst.blocks[0].ops
                } else {
                    Seq::empty()
                };
                if inst.blocks.len() == 1 {
                    lemma_blocks_bulk_one(inst.blocks);
                }
                lemma_steps_cost(body, qubits, state.angles);
            } else {
                assert(item == flat_item(inst, qubits));
            }
        }
    }
}

proof fn lemma_angles_bound(ops: Seq<InstructionModel>)
    ensures
        angles(ops) <= 3 * bulk(ops),
        absorbed(ops) <= bulk(ops),
    decreases ops,
{
    if ops.len() > 0 {
        lemma_angles_bound(ops.drop_last());
        let inst = ops.last();
        assert(angles_of(inst) <= 3 * bulk_of(inst) && absorbed_in(inst) <= bulk_of(inst)) by {
            if inst.blocks.len() == 1 {
                lemma_blocks_bulk_one(inst.blocks);
                if inst.op.is_collector() {
                    lemma_params_bound(inst.blocks[0].ops);
                } else {
                    assert(decreases_to!(ops => ops[ops.len() - 1]));
                    assert(decreases_to!(inst => inst.blocks));
                    assert(decreases_to!(inst.blocks => inst.blocks[0]));
                    assert(decreases_to!(inst.blocks[0] => inst.blocks[0].ops));
                    lemma_angles_bound(inst.blocks[0].ops);
                }
            }
        }
    }
}

proof fn lemma_params_bound(ops: Seq<InstructionModel>)
    ensures
        param_count(ops) <= bulk(ops),
    decreases ops.len(),
{
    if ops.len() > 0 {
        let inst = ops.last();
        lemma_params_bound(ops.drop_last());
        assert(bulk_of(inst) == 2 + inst.qubits.len() + inst.params.len() + blocks_bulk(inst.blocks));
    }
}

/// A circuit that is bounded so is no larger than lowering it can number.
pub proof fn lemma_bounded_circuits_can_be_lowered(
    circuit: CircuitModel,
    table: DistributionTableModel,
    params: Seq<ParamsModel>,
)
    requires
        lowering_bounded(circuit.ops),
    ensures
        angles(circuit.ops) <= usize::MAX,
        absorbed(circuit.ops) <= u32::MAX,
        reading_of(circuit) matches Ok(reading) ==> ({
            let track = ranged(reading.track, params);
            room_for_track(track, table, track.collectors.len(), 0)
        }),
{
    let all = bulk(circuit.ops);
    let emissions = emission_count(circuit.ops);
    assert((emissions + 3) * all == emissions * all + 3 * all) by (nonlinear_arith);
    assert(emissions * all >= 0) by (nonlinear_arith);
    lemma_angles_bound(circuit.ops);
    let start = Reading {
        track: TrackModel { items: Seq::empty(), collectors: Seq::empty() },
        angles: Seq::empty(),
    };
    lemma_run_reads_on(circuit.ops, Seq::empty(), range(0, circuit.num_qubits), start);
    if let Ok(reading) = reading_of(circuit) {
        let read = reading.track;
        let track = ranged(read, params);
        let count = track.items.len();
        let reach = join_reach(params, read.collectors);
        assert forall|i: int| 0 <= i < read.items.len() implies ((
        #[trigger] read.items[i]) matches ItemModel::Collector(index)
            ==> track.collectors[index as int].steps == read.collectors[index as int].steps) by {
            assert(track.collectors == joined(params, read.collectors, reach));
        }
        lemma_cost_of_steps(read.items, track.collectors, read.collectors);
        let tried = positions_tried(track, table, 0);
        lemma_tried_bounds(track, table, 0);
        lemma_met_bound(track, table, tried);
        lemma_cost_take(track.items, track.collectors, tried as int);
        lemma_setting_out_take(track.items, tried as int);
        lemma_first_missing(track, table, 0);
        lemma_placed_bound(track, table, positions_known(track, table));
        let most = cost(track.items, track.collectors);
        let some = setting_out(track.items.take(tried as int));
        assert(some * most <= setting_out(track.items) * most) by (nonlinear_arith)
            requires
                some <= setting_out(track.items),
        ;
        let out = setting_out(track.items);
        assert(out * most <= emissions * all) by (nonlinear_arith)
            requires
                out <= emissions,
                most <= all,
        ;
    }
}

// --- The tests -----------------------------------------------------------------------------------

/// One more than what a number that has to fit can be.
const TOO_MANY: u64 = 4294967296;

/// A count, or that it is too large to fit.
spec fn capped(count: nat) -> nat {
    if count < TOO_MANY {
        count
    } else {
        TOO_MANY as nat
    }
}

fn capped_sum(left: u64, right: u64) -> (sum: u64)
    requires
        left <= TOO_MANY,
        right <= TOO_MANY,
    ensures
        sum == capped((left + right) as nat),
{
    if left + right < TOO_MANY {
        left + right
    } else {
        TOO_MANY
    }
}

fn capped_count(count: usize) -> (capped_at: u64)
    ensures
        capped_at == capped(count as nat),
{
    if (count as u64) < TOO_MANY {
        count as u64
    } else {
        TOO_MANY
    }
}

/// How much there is to a circuit, or that it is too much to fit.
fn bulk_capped(dag: &Circuit) -> (total: u64)
    ensures
        total == capped(bulk(dag@.ops)),
    decreases dag@,
{
    let ghost ops = dag@.ops;
    let mut total: u64 = 0;
    let mut i: usize = 0;
    assert(ops.take(0) =~= Seq::<InstructionModel>::empty());
    while i < dag.ops.len()
        invariant
            i <= dag.ops.len(),
            ops == dag@.ops,
            total == capped(bulk(ops.take(i as int))),
        decreases dag.ops.len() - i,
    {
        let ghost next = ops.take(i + 1);
        let inst = &dag.ops[i];
        let ghost said = ops[i as int];
        proof {
            assert(next.drop_last() =~= ops.take(i as int));
            assert(next.last() == said);
            assert(said == inst@);
            assert(bulk_of(said) == 2 + said.qubits.len() + said.params.len() + blocks_bulk(said.blocks));
        }
        let mut own: u64 = capped_sum(
            capped_sum(2, capped_count(inst.qubits.len())),
            capped_count(inst.params.len()),
        );
        let ghost bare = own;
        let ghost blocks = said.blocks;
        let mut k: usize = 0;
        assert(blocks.take(0) =~= Seq::<CircuitModel>::empty());
        while k < inst.blocks.len()
            invariant
                k <= inst.blocks.len(),
                i < dag.ops.len(),
                ops == dag@.ops,
                said == ops[i as int],
                said == inst@,
                blocks == said.blocks,
                bare <= TOO_MANY,
                own == capped(bare as nat + blocks_bulk(blocks.take(k as int))),
            decreases inst.blocks.len() - k,
        {
            proof {
                assert(blocks.take(k + 1).drop_last() =~= blocks.take(k as int));
                assert(blocks.take(k + 1).last() == inst.blocks@[k as int]@);
                assert(decreases_to!(dag@ => dag@.ops));
                assert(decreases_to!(dag@.ops => dag@.ops[i as int]));
                assert(decreases_to!(dag@.ops[i as int] => dag@.ops[i as int].blocks));
                assert(decreases_to!(dag@.ops[i as int].blocks => dag@.ops[i as int].blocks[k as int]));
            }
            own = capped_sum(own, bulk_capped(&inst.blocks[k]));
            k += 1;
        }
        assert(blocks.take(k as int) =~= blocks);
        total = capped_sum(total, own);
        i += 1;
    }
    assert(ops.take(i as int) =~= ops);
    total
}

/// How many emissions a circuit holds outside collectors, or that they are too many to fit.
fn emissions_capped(dag: &Circuit) -> (total: u64)
    ensures
        total == capped(emission_count(dag@.ops)),
    decreases dag@,
{
    let ghost ops = dag@.ops;
    let mut total: u64 = 0;
    let mut i: usize = 0;
    assert(ops.take(0) =~= Seq::<InstructionModel>::empty());
    while i < dag.ops.len()
        invariant
            i <= dag.ops.len(),
            ops == dag@.ops,
            total == capped(emission_count(ops.take(i as int))),
        decreases dag.ops.len() - i,
    {
        let ghost next = ops.take(i + 1);
        let inst = &dag.ops[i];
        proof {
            assert(next.drop_last() =~= ops.take(i as int));
            assert(next.last() == inst@);
            assert(emissions_in(inst@) == if inst@.op is Emit {
                1nat
            } else if !inst@.op.is_collector() && inst@.op.is_box() && inst@.blocks.len() == 1 {
                emission_count(inst@.blocks[0].ops)
            } else {
                0nat
            });
        }
        if let Operation::Emit(_) = inst.op {
            total = capped_sum(total, 1);
        } else if !is_collector(inst) && is_box(inst) && inst.blocks.len() == 1 {
            proof {
                assert(inst@.blocks[0] == inst.blocks@[0]@);
                assert(decreases_to!(dag@ => dag@.ops));
                assert(decreases_to!(dag@.ops => dag@.ops[i as int]));
                assert(decreases_to!(dag@.ops[i as int] => dag@.ops[i as int].blocks));
                assert(decreases_to!(dag@.ops[i as int].blocks => dag@.ops[i as int].blocks[0]));
            }
            total = capped_sum(total, emissions_capped(&inst.blocks[0]));
        }
        i += 1;
    }
    assert(ops.take(i as int) =~= ops);
    total
}

/// Whether a circuit is small enough that whatever comes of lowering it can be numbered.
pub fn lowering_fits(dag: &Circuit) -> (fits: bool)
    ensures
        fits == lowering_bounded(dag@.ops),
{
    let emissions: u64 = emissions_capped(dag);
    let all: u64 = bulk_capped(dag);
    let ghost true_emissions = emission_count(dag@.ops);
    let ghost true_all = bulk(dag@.ops);
    proof {
        lemma_capped_product(true_emissions, true_all);
    }
    assert((emissions + 3) * all <= 0xffff_ffff_ffff_ffff_ffffu128) by (nonlinear_arith)
        requires
            emissions <= TOO_MANY,
            all <= TOO_MANY,
    ;
    (emissions as u128 + 3) * (all as u128) < TOO_MANY as u128
}

proof fn lemma_capped_product(emissions: nat, all: nat)
    ensures
        ((emissions + 3) * all < TOO_MANY) == ((capped(emissions) + 3) * capped(all) < TOO_MANY),
{
    assert(all >= TOO_MANY ==> (emissions + 3) * all >= TOO_MANY && (capped(emissions) + 3)
        * TOO_MANY >= TOO_MANY) by (nonlinear_arith);
    assert(all >= 1 && emissions >= TOO_MANY ==> (emissions + 3) * all >= TOO_MANY && (TOO_MANY + 3)
        * all >= TOO_MANY) by (nonlinear_arith);
    if all == 0 {
        assert((emissions + 3) * all == 0 && (capped(emissions) + 3) * capped(all) == 0) by (nonlinear_arith)
            requires
                all == 0,
                capped(all) == 0,
        ;
    }
}

/// How many draws and table entries building can ask for, or that they are too many to fit.
fn demand_capped(dag: &Circuit) -> (total: u64)
    ensures
        total == capped(demand(dag@.ops)),
    decreases dag@,
{
    let ghost ops = dag@.ops;
    let mut total: u64 = 0;
    let mut i: usize = 0;
    assert(ops.take(0) =~= Seq::<InstructionModel>::empty());
    while i < dag.ops.len()
        invariant
            i <= dag.ops.len(),
            ops == dag@.ops,
            total == capped(demand(ops.take(i as int))),
        decreases dag.ops.len() - i,
    {
        let ghost next = ops.take(i + 1);
        let inst = &dag.ops[i];
        proof {
            assert(next.drop_last() =~= ops.take(i as int));
            assert(next.last() == inst@);
            assert(demand_of(inst@) == if inst@.op.is_box() && inst@.blocks.len() == 1 {
                3 * (inst@.qubits.len() + 1) + demand(inst@.blocks[0].ops)
            } else {
                0nat
            });
        }
        if is_box(inst) && inst.blocks.len() == 1 {
            proof {
                assert(inst@.blocks[0] == inst.blocks@[0]@);
                assert(decreases_to!(dag@ => dag@.ops));
                assert(decreases_to!(dag@.ops => dag@.ops[i as int]));
                assert(decreases_to!(dag@.ops[i as int] => dag@.ops[i as int].blocks));
                assert(decreases_to!(dag@.ops[i as int].blocks => dag@.ops[i as int].blocks[0]));
            }
            let each: u64 = capped_sum(capped_count(inst.qubits.len()), 1);
            let own: u64 = capped_sum(capped_sum(each, each), each);
            total = capped_sum(total, capped_sum(own, demand_capped(&inst.blocks[0])));
        }
        i += 1;
    }
    assert(ops.take(i as int) =~= ops);
    total
}

/// Whether the draws and the table entries that building a circuit can ask for fit their indices.
pub fn drawing_fits(dag: &Circuit) -> (fits: bool)
    ensures
        fits == (demand(dag@.ops) <= u32::MAX),
{
    demand_capped(dag) < TOO_MANY
}

/// How many instructions a circuit holds, those inside other instructions counted too, if that can be counted.
pub fn size(dag: &Circuit) -> (size: Option<usize>)
    ensures
        match size {
            Some(count) => count == run_size(dag@.ops),
            None => run_size(dag@.ops) > usize::MAX,
        },
    decreases dag@,
{
    let ghost ops = dag@.ops;
    let mut total: usize = 0;
    let mut i: usize = 0;
    assert(ops.take(0) =~= Seq::<InstructionModel>::empty());
    while i < dag.ops.len()
        invariant
            i <= dag.ops.len(),
            ops == dag@.ops,
            total == run_size(ops.take(i as int)),
        decreases dag.ops.len() - i,
    {
        let ghost next = ops.take(i + 1);
        let inst = &dag.ops[i];
        let ghost blocks = inst@.blocks;
        proof {
            assert(next.drop_last() =~= ops.take(i as int));
            assert(next.last() == inst@);
            assert(blocks.take(0) =~= Seq::<CircuitModel>::empty());
            lemma_run_size_take(ops, i + 1);
            lemma_blocks_size_take(blocks, 0);
        }
        if total == usize::MAX {
            return None;
        }
        let ghost before = total;
        total += 1;
        let mut k: usize = 0;
        while k < inst.blocks.len()
            invariant
                k <= inst.blocks.len(),
                i < dag.ops.len(),
                ops == dag@.ops,
                inst@ == ops[i as int],
                blocks == inst@.blocks,
                total == before + 1 + blocks_size(blocks.take(k as int)),
                before + 1 + blocks_size(blocks) <= run_size(ops),
            decreases inst.blocks.len() - k,
        {
            proof {
                assert(blocks.take(k + 1).drop_last() =~= blocks.take(k as int));
                assert(blocks.take(k + 1).last() == inst.blocks@[k as int]@);
                lemma_blocks_size_take(blocks, k + 1);
                assert(decreases_to!(dag@ => dag@.ops));
                assert(decreases_to!(dag@.ops => dag@.ops[i as int]));
                assert(decreases_to!(dag@.ops[i as int] => dag@.ops[i as int].blocks));
                assert(decreases_to!(dag@.ops[i as int].blocks => dag@.ops[i as int].blocks[k as int]));
            }
            match self::size(&inst.blocks[k]) {
                None => {
                    return None;
                },
                Some(inner) => match total.checked_add(inner) {
                    None => {
                        return None;
                    },
                    Some(sum) => {
                        total = sum;
                    },
                },
            }
            k += 1;
        }
        assert(blocks.take(k as int) =~= blocks);
        i += 1;
    }
    assert(ops.take(i as int) =~= ops);
    Some(total)
}

proof fn lemma_blocks_size_take(blocks: Seq<CircuitModel>, k: int)
    requires
        0 <= k <= blocks.len(),
    ensures
        blocks_size(blocks.take(k)) <= blocks_size(blocks),
    decreases blocks.len(),
{
    if k < blocks.len() {
        assert(blocks.drop_last().take(k) =~= blocks.take(k));
        lemma_blocks_size_take(blocks.drop_last(), k);
    } else {
        assert(blocks.take(k) =~= blocks);
    }
}

/// Whether what a collector holds is gates and emissions.
fn all_steps(body: &Circuit) -> (all: bool)
    ensures
        all == holds_steps(body@.ops),
{
    let mut i: usize = 0;
    while i < body.ops.len()
        invariant
            i <= body.ops.len(),
            forall|j: int|
                0 <= j < i ==> (#[trigger] body@.ops[j]).op is Gate || body@.ops[j].op is Emit,
        decreases body.ops.len() - i,
    {
        let inst = &body.ops[i];
        assert(body@.ops[i as int] == inst@);
        match inst.op {
            Operation::Gate(_) => {},
            Operation::Emit(_) => {},
            _ => {
                return false;
            },
        }
        i += 1;
    }
    true
}

/// Whether a circuit is equipped for merging: every collector names how it synthesizes and partitions exactly the
/// qubits it is on.
pub fn is_equipped(dag: &Circuit) -> (yes: bool)
    ensures
        yes == equipped(dag@),
    decreases dag@,
{
    let mut i: usize = 0;
    while i < dag.ops.len()
        invariant
            i <= dag.ops.len(),
            forall|j: int| 0 <= j < i ==> equipped_at(#[trigger] dag@.ops[j]),
        decreases dag.ops.len() - i,
    {
        let inst = &dag.ops[i];
        assert(dag@.ops[i as int] == inst@);
        assert(inst@.blocks.len() == inst.blocks@.len());
        let fine = match collect_annotation(inst) {
            Some(collect) => {
                let parts = collect.partition.iter();
                collect.parts.len() > 0 && collect.partition.num_qubits() == inst.qubits.len()
            },
            None => match &inst.op {
                Operation::Box { .. } => {
                    if inst.blocks.len() == 1 {
                        proof {
                            assert(inst@.blocks[0] == inst.blocks@[0]@);
                            assert(decreases_to!(dag@ => dag@.ops));
                            assert(decreases_to!(dag@.ops => dag@.ops[i as int]));
                            assert(decreases_to!(dag@.ops[i as int] => dag@.ops[i as int].blocks));
                            assert(decreases_to!(
                                dag@.ops[i as int].blocks => dag@.ops[i as int].blocks[0]
                            ));
                        }
                        is_equipped(&inst.blocks[0])
                    } else {
                        true
                    }
                },
                _ => true,
            },
        };
        if !fine {
            assert(!equipped_at(dag@.ops[i as int]));
            return false;
        }
        i += 1;
    }
    true
}

/// Whether every collector that is reached names how it is synthesized, as writing a template asks.
pub fn synthesizers_named(dag: &Circuit) -> (yes: bool)
    ensures
        yes == names_synthesizers(dag@.ops),
    decreases dag@,
{
    let mut i: usize = 0;
    while i < dag.ops.len()
        invariant
            i <= dag.ops.len(),
            forall|j: int| 0 <= j < i ==> names_synthesizer(#[trigger] dag@.ops[j]),
        decreases dag.ops.len() - i,
    {
        let inst = &dag.ops[i];
        assert(dag@.ops[i as int] == inst@);
        assert(inst@.blocks.len() == inst.blocks@.len());
        let fine = match collect_annotation(inst) {
            Some(collect) => collect.parts.len() > 0,
            None => match &inst.op {
                Operation::Box { .. } => {
                    if inst.blocks.len() == 1 {
                        proof {
                            assert(inst@.blocks[0] == inst.blocks@[0]@);
                            assert(decreases_to!(dag@ => dag@.ops));
                            assert(decreases_to!(dag@.ops => dag@.ops[i as int]));
                            assert(decreases_to!(dag@.ops[i as int] => dag@.ops[i as int].blocks));
                            assert(decreases_to!(
                                dag@.ops[i as int].blocks => dag@.ops[i as int].blocks[0]
                            ));
                        }
                        synthesizers_named(&inst.blocks[0])
                    } else {
                        true
                    }
                },
                _ => true,
            },
        };
        if !fine {
            assert(!names_synthesizer(dag@.ops[i as int]));
            return false;
        }
        i += 1;
    }
    true
}

/// Whether every collector that is reached names how it is synthesized and holds gates and emissions only, as
/// reading a track asks.
pub fn is_lowerable(dag: &Circuit) -> (yes: bool)
    ensures
        yes == lowerable(dag@.ops),
    decreases dag@,
{
    let mut i: usize = 0;
    while i < dag.ops.len()
        invariant
            i <= dag.ops.len(),
            forall|j: int| 0 <= j < i ==> lowerable_one(#[trigger] dag@.ops[j]),
        decreases dag.ops.len() - i,
    {
        let inst = &dag.ops[i];
        assert(dag@.ops[i as int] == inst@);
        assert(inst@.blocks.len() == inst.blocks@.len());
        let fine = match collect_annotation(inst) {
            Some(collect) => collect.parts.len() > 0 && (inst.blocks.len() != 1 || all_steps(&inst.blocks[0])),
            None => match &inst.op {
                Operation::Box { .. } => {
                    if inst.blocks.len() == 1 {
                        proof {
                            assert(inst@.blocks[0] == inst.blocks@[0]@);
                            assert(decreases_to!(dag@ => dag@.ops));
                            assert(decreases_to!(dag@.ops => dag@.ops[i as int]));
                            assert(decreases_to!(dag@.ops[i as int] => dag@.ops[i as int].blocks));
                            assert(decreases_to!(
                                dag@.ops[i as int].blocks => dag@.ops[i as int].blocks[0]
                            ));
                        }
                        is_lowerable(&inst.blocks[0])
                    } else {
                        true
                    }
                },
                _ => true,
            },
        };
        if !fine {
            assert(!lowerable_one(dag@.ops[i as int]));
            return false;
        }
        i += 1;
    }
    true
}

/// Whether every emission outside a collector is still travelling.
pub fn all_travel(dag: &Circuit) -> (yes: bool)
    ensures
        yes == emissions_travel(dag@.ops),
    decreases dag@,
{
    let mut i: usize = 0;
    while i < dag.ops.len()
        invariant
            i <= dag.ops.len(),
            forall|j: int| 0 <= j < i ==> emission_travels(#[trigger] dag@.ops[j]),
        decreases dag.ops.len() - i,
    {
        let inst = &dag.ops[i];
        assert(dag@.ops[i as int] == inst@);
        assert(inst@.blocks.len() == inst.blocks@.len());
        let fine = match collect_annotation(inst) {
            Some(collect) => true,
            None => match &inst.op {
                Operation::Emit(emit) => emit.direction.is_some() && emit.parts.len() > 0,
                Operation::Box { .. } => {
                    if inst.blocks.len() == 1 {
                        proof {
                            assert(inst@.blocks[0] == inst.blocks@[0]@);
                            assert(decreases_to!(dag@ => dag@.ops));
                            assert(decreases_to!(dag@.ops => dag@.ops[i as int]));
                            assert(decreases_to!(dag@.ops[i as int] => dag@.ops[i as int].blocks));
                            assert(decreases_to!(
                                dag@.ops[i as int].blocks => dag@.ops[i as int].blocks[0]
                            ));
                        }
                        all_travel(&inst.blocks[0])
                    } else {
                        true
                    }
                },
                _ => true,
            },
        };
        if !fine {
            assert(!emission_travels(dag@.ops[i as int]));
            return false;
        }
        i += 1;
    }
    true
}

/// Whether the angles of every collector that is reached can be counted, as writing a template asks.
pub fn template_fits(dag: &Circuit) -> (fits: bool)
    ensures
        fits == (angles(dag@.ops) <= usize::MAX),
{
    count_angles(dag).is_some()
}

/// How many angles the collectors of a circuit take, if that can be counted.
fn count_angles(dag: &Circuit) -> (count: Option<usize>)
    ensures
        match count {
            Some(total) => total == angles(dag@.ops),
            None => angles(dag@.ops) > usize::MAX,
        },
    decreases dag@,
{
    let ghost ops = dag@.ops;
    let mut total: usize = 0;
    let mut i: usize = 0;
    assert(ops.take(0) =~= Seq::<InstructionModel>::empty());
    while i < dag.ops.len()
        invariant
            i <= dag.ops.len(),
            ops == dag@.ops,
            total == angles(ops.take(i as int)),
        decreases dag.ops.len() - i,
    {
        let ghost next = ops.take(i + 1);
        let inst = &dag.ops[i];
        proof {
            assert(next.drop_last() =~= ops.take(i as int));
            assert(next.last() == inst@);
            assert(inst@.blocks.len() == inst.blocks@.len());
            lemma_angles_take(ops, i + 1);
        }
        let more: Option<usize> = if is_collector(inst) {
            inst.qubits.len().checked_mul(3)
        } else if is_box(inst) && inst.blocks.len() == 1 {
            proof {
                assert(inst@.blocks[0] == inst.blocks@[0]@);
                assert(decreases_to!(dag@ => dag@.ops));
                assert(decreases_to!(dag@.ops => dag@.ops[i as int]));
                assert(decreases_to!(dag@.ops[i as int] => dag@.ops[i as int].blocks));
                assert(decreases_to!(dag@.ops[i as int].blocks => dag@.ops[i as int].blocks[0]));
            }
            count_angles(&inst.blocks[0])
        } else {
            Some(0)
        };
        assert(match more {
            Some(count) => count == angles_of(inst@),
            None => angles_of(inst@) > usize::MAX,
        });
        match more {
            Some(more) => match total.checked_add(more) {
                Some(sum) => {
                    total = sum;
                },
                None => {
                    return None;
                },
            },
            None => {
                return None;
            },
        }
        i += 1;
    }
    assert(ops.take(i as int) =~= ops);
    Some(total)
}

/// Whether every node of a graph has as many qubits as its partition groups, as merging parallel nodes and drawing
/// the graph ask.
pub fn is_grouped(vfg: &VirtualFlowGraph) -> (yes: bool)
    ensures
        yes == vfg@.grouped(),
{
    let order = vfg.node_indices();
    let mut k: usize = 0;
    while k < order.len()
        invariant
            k <= order.len(),
            order@.to_set() == vfg@.nodes.dom(),
            forall|j: int|
                0 <= j < k ==> vfg@.nodes[#[trigger] order@[j]].qubits.len() == total(
                    vfg@.nodes[order@[j]].partition,
                ),
        decreases order.len() - k,
    {
        assert(order@.to_set().contains(order@[k as int]));
        let node = vfg.node(order[k]);
        if node.qubits.len() != node.partition.num_qubits() {
            assert(!vfg@.grouped());
            return false;
        }
        k += 1;
    }
    proof {
        assert forall|node: u32| #[trigger] vfg@.nodes.dom().contains(node) implies vfg@.nodes[node].qubits.len()
            == total(vfg@.nodes[node].partition) by {
            assert(order@.to_set().contains(node));
            let j = order@.index_of(node);
            assert(order@[j] == node);
        }
    }
    true
}

/// Whether a graph is small enough that parallel nodes of it can be merged: contracting a cluster can at most
/// double the edges for a while.
pub fn merging_fits(vfg: &VirtualFlowGraph) -> (fits: bool)
    requires
        vfg@.wf(),
    ensures
        fits == (vfg@.nodes.dom().len() < u32::MAX && 2 * vfg@.edges.dom().len() <= u32::MAX),
        fits ==> room_to_merge(vfg@),
{
    proof {
        assert forall|members: Seq<u32>| (#[trigger] edges_touching(vfg@, members)).len()
            <= vfg@.edges.dom().len() by {
            vstd::set_lib::lemma_len_subset(edges_touching(vfg@, members), vfg@.edges.dom());
        }
    }
    let most: usize = u32::MAX as usize;
    vfg.num_nodes() < most && vfg.num_edges() <= most / 2
}

/// Whether a circuit is a valid emission circuit.
pub fn is_valid(dag: &Circuit) -> (yes: bool)
    ensures
        yes == valid(dag@),
    decreases dag@,
{
    let mut i: usize = 0;
    while i < dag.ops.len()
        invariant
            i <= dag.ops.len(),
            forall|j: int| 0 <= j < i ==> valid_at(#[trigger] dag@.ops[j]),
        decreases dag.ops.len() - i,
    {
        let inst = &dag.ops[i];
        assert(dag@.ops[i as int] == inst@);
        assert(inst@.blocks.len() == inst.blocks@.len());
        let fine = match collect_annotation(inst) {
            Some(collect) => {
                let parts = collect.partition.iter();
                collect.parts.len() > 0 && collect.partition.num_qubits() == inst.qubits.len() && (
                inst.blocks.len() != 1 || all_steps(&inst.blocks[0]))
            },
            None => match &inst.op {
                Operation::Emit(emit) => emit.direction.is_some() && emit.parts.len() > 0,
                Operation::Box { .. } => {
                    if inst.blocks.len() == 1 {
                        proof {
                            assert(inst@.blocks[0] == inst.blocks@[0]@);
                            assert(decreases_to!(dag@ => dag@.ops));
                            assert(decreases_to!(dag@.ops => dag@.ops[i as int]));
                            assert(decreases_to!(dag@.ops[i as int] => dag@.ops[i as int].blocks));
                            assert(decreases_to!(
                                dag@.ops[i as int].blocks => dag@.ops[i as int].blocks[0]
                            ));
                        }
                        is_valid(&inst.blocks[0])
                    } else {
                        true
                    }
                },
                _ => true,
            },
        };
        if !fine {
            assert(!valid_at(dag@.ops[i as int]));
            return false;
        }
        i += 1;
    }
    true
}

/// Whether wires name each at most once, all below a limit.
fn all_below(list: &Vec<usize>, limit: usize) -> (yes: bool)
    ensures
        yes == wires_below(list@, limit as nat),
{
    let mut seen = IndexSet::new();
    let mut i: usize = 0;
    while i < list.len()
        invariant
            i <= list.len(),
            seen@ == list@.take(i as int).to_set(),
            list@.take(i as int).no_duplicates(),
            forall|k: int| 0 <= k < i ==> (#[trigger] list@[k]) < limit,
        decreases list.len() - i,
    {
        let ghost before = list@.take(i as int);
        let ghost after = list@.take(i + 1);
        proof {
            assert(after =~= before.push(list@[i as int]));
        }
        if list[i] >= limit {
            assert(!(list@[i as int] < limit));
            return false;
        }
        if seen.contains(list[i]) {
            proof {
                assert(before.contains(list@[i as int]));
                let j = before.index_of(list@[i as int]);
                assert(list@[j] == list@[i as int]);
            }
            return false;
        }
        proof {
            assert(!before.contains(list@[i as int]));
            assert forall|j: int, k: int| 0 <= j < after.len() && 0 <= k < after.len() && j != k implies after[j]
                != after[k] by {
                if j == i {
                    assert(before[k] == after[k]);
                    assert(before.contains(after[k]));
                } else if k == i {
                    assert(before[j] == after[j]);
                    assert(before.contains(after[j]));
                } else {
                    assert(before[j] != before[k]);
                }
            }
            assert forall|item: usize| #[trigger] after.to_set().contains(item) <==> before.to_set().insert(
                list@[i as int],
            ).contains(item) by {
                if after.contains(item) {
                    let j = after.index_of(item);
                    assert(after[j] == item);
                    if j < i {
                        assert(before[j] == item);
                    }
                }
                if before.contains(item) {
                    assert(after[before.index_of(item)] == item);
                }
                assert(after[i as int] == list@[i as int]);
            }
            assert(after.to_set() =~= before.to_set().insert(list@[i as int]));
        }
        seen.insert(list[i]);
        i += 1;
    }
    assert(list@.take(i as int) =~= list@);
    true
}

/// Whether a circuit is well formed.
pub fn is_well_formed(dag: &Circuit) -> (yes: bool)
    ensures
        yes == dag@.wf(),
    decreases dag@,
{
    let mut seen = IndexSet::new();
    let mut i: usize = 0;
    while i < dag.ops.len()
        invariant
            i <= dag.ops.len(),
            forall|node: usize| #[trigger]
                seen@.contains(node) <==> exists|j: int|
                    0 <= j < i && (#[trigger] dag@.ops[j]).node == node,
            forall|j: int, k: int|
                0 <= j < k < i ==> (#[trigger] dag@.ops[j]).node != (#[trigger] dag@.ops[k]).node,
            forall|j: int|
                0 <= j < i ==> (#[trigger] dag@.ops[j]).wf(dag@.num_qubits, dag@.num_clbits),
        decreases dag.ops.len() - i,
    {
        let inst = &dag.ops[i];
        assert(dag@.ops[i as int] == inst@);
        if seen.contains(inst.node) {
            proof {
                let node = inst.node;
                assert(seen@.contains(node));
                let j = choose|j: int| 0 <= j < i && (#[trigger] dag@.ops[j]).node == node;
                assert(dag@.ops[j].node == dag@.ops[i as int].node);
            }
            return false;
        }
        let fits = match &inst.op {
            Operation::Gate(gate) => gate.num_qubits() as usize == inst.qubits.len(),
            Operation::Emit(emit) => emit.partition.num_qubits() == inst.qubits.len(),
            _ => true,
        };
        if !fits || !all_below(&inst.qubits, dag.num_qubits) || !all_below(
            &inst.clbits,
            dag.num_clbits,
        ) {
            assert(!dag@.ops[i as int].wf(dag@.num_qubits, dag@.num_clbits));
            return false;
        }
        let mut k: usize = 0;
        while k < inst.blocks.len()
            invariant
                k <= inst.blocks.len(),
                i < dag.ops.len(),
                inst@ == dag@.ops[i as int],
                forall|b: int|
                    0 <= b < k ==> (#[trigger] inst@.blocks[b]).num_qubits == inst@.qubits.len()
                        && inst@.blocks[b].num_clbits == inst@.clbits.len() && inst@.blocks[b].wf(),
            decreases inst.blocks.len() - k,
        {
            let body = &inst.blocks[k];
            proof {
                assert(inst@.blocks[k as int] == body@);
                assert(decreases_to!(dag@ => dag@.ops));
                assert(decreases_to!(dag@.ops => dag@.ops[i as int]));
                assert(decreases_to!(dag@.ops[i as int] => dag@.ops[i as int].blocks));
                assert(decreases_to!(dag@.ops[i as int].blocks => dag@.ops[i as int].blocks[k as int]));
            }
            if body.num_qubits != inst.qubits.len() || body.num_clbits != inst.clbits.len()
                || !is_well_formed(body) {
                assert(!dag@.ops[i as int].wf(dag@.num_qubits, dag@.num_clbits));
                return false;
            }
            k += 1;
        }
        assert(dag@.ops[i as int].wf(dag@.num_qubits, dag@.num_clbits));
        let ghost before = seen@;
        seen.insert(inst.node);
        proof {
            assert forall|node: usize| #[trigger] seen@.contains(node) <==> exists|j: int|
                0 <= j < i + 1 && (#[trigger] dag@.ops[j]).node == node by {
                if before.contains(node) {
                    let j = choose|j: int| 0 <= j < i && (#[trigger] dag@.ops[j]).node == node;
                    assert(dag@.ops[j].node == node);
                }
                if node == inst.node {
                    assert(dag@.ops[i as int].node == node);
                }
            }
            assert forall|j: int, k: int| 0 <= j < k < i + 1 implies (#[trigger] dag@.ops[j]).node != (
            #[trigger] dag@.ops[k]).node by {
                if k == i {
                    assert(!before.contains(inst.node));
                    assert(before.contains(dag@.ops[j].node));
                }
            }
        }
        i += 1;
    }
    true
}

} // verus!
