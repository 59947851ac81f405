//! The spine: an emission circuit read as one flat run of positions, with the parts it is read into open to
//! the reader.
//!
//! Where a [`Track`](crate::track::Track) hands its reading to a builder, a spine is wired by whoever holds
//! it, one emission at a time.

use vstd::prelude::*;

use crate::distributions::DistributionTable;
use crate::emission_circuit::Emit;
use crate::error::SamplexError;
use crate::track::beyond;
use crate::track::crossings_from;
use crate::track::extends;
use crate::track::names_nodes;
use crate::track::nearest_collector;
use crate::track::read;
use crate::track::resolution;
use crate::track::room_for_walk;
use crate::track::rule_refusal;
use crate::track::setting_out;
use crate::track::wire;
use crate::track::wired;
use crate::track::Flow;
use crate::track::GateNodes;
use crate::track::ItemModel;
use crate::track::TrackModel;
use crate::virtual_flow_graph::Direction;
use crate::virtual_flow_graph::SamplingGraph;

pub use crate::track::Collector;
pub use crate::track::GateKey;
pub use crate::track::Item;

verus! {

/// The circuit as a flat sequence, which is what makes the propagation walk a simple scan.
pub struct Spine {
    /// The positions, in circuit order.
    pub items: Vec<Item>,
    /// The collectors, in the order the positions refer to them.
    pub collectors: Vec<Collector>,
}

impl View for Spine {
    type V = TrackModel;

    open spec fn view(&self) -> TrackModel {
        read(self.items@, self.collectors@)
    }
}

impl Default for Spine {
    fn default() -> (spine: Self)
        ensures
            spine@.items.len() == 0,
            spine@.collectors.len() == 0,
    {
        Spine { items: Vec::new(), collectors: Vec::new() }
    }
}

impl Spine {
    /// Build a spine from a flat reading already in hand.
    ///
    /// The index in every [`Item::Collector`] must be a position in `collectors` for anything to be read off
    /// the spine; that is the one invariant a caller upholds, and the reason [`Spine::push_collector`]
    /// exists for the incremental case.
    pub fn new(items: Vec<Item>, collectors: Vec<Collector>) -> (spine: Self)
        ensures
            spine@ == read(items@, collectors@),
    {
        Spine { items, collectors }
    }

    /// Append a collector together with the position that stands for it, keeping the two in step.
    pub fn push_collector(&mut self, collector: Collector)
        ensures
            final(self)@.items == old(self)@.items.push(
                ItemModel::Collector(old(self)@.collectors.len() as usize),
            ),
            final(self)@.collectors == old(self)@.collectors.push(collector@),
    {
        let ghost before = self@;
        let ghost said = collector@;
        let index: usize = self.collectors.len();
        self.items.push(Item::Collector(index));
        self.collectors.push(collector);
        proof {
            assert(self@.items =~= before.items.push(ItemModel::Collector(index)));
            assert(self@.collectors =~= before.collectors.push(said));
        }
    }

    /// Scan from `start` in `direction` for the first collector that can take this emission.
    ///
    /// Proximity decides, filtered by [`Collector::accepts`]. A collector that declines is simply crossed,
    /// so an emission travels until it finds one that can take it. Reaching the end of the circuit is the
    /// `None` case.
    pub fn resolve_collector(
        &self,
        start: usize,
        direction: Direction,
        emission: &Emit,
        qubits: &[usize],
        table: &DistributionTable,
    ) -> (found: Option<usize>)
        requires
            self@.wf(),
            direction is Left ==> start <= self@.items.len(),
            direction is Right ==> start < usize::MAX,
            emission@.resolves_in(table@) || self@.uncovered(
                beyond(start as int, direction),
                direction,
                qubits@,
            ),
        ensures
            found == resolution(
                self@,
                beyond(start as int, direction),
                direction,
                emission@,
                qubits@,
                table@,
            ),
    {
        nearest_collector(
            &self.items,
            &self.collectors,
            start,
            direction,
            emission,
            qubits,
            table,
        )
    }

    /// Wire one emission's path: every gate between it and its collector, chained per qubit.
    ///
    /// A gate on the path that takes what was emitted out of its group is refused, and the graph is left as
    /// far as the walk got.
    pub fn propagate(
        &self,
        sg: &mut SamplingGraph,
        from: usize,
        emission: &Emit,
        emission_qubits: &Vec<usize>,
        source: u32,
        target_index: usize,
        target_node: u32,
        gate_nodes: &mut GateNodes,
        table: &DistributionTable,
    ) -> (result: Result<(), SamplexError>)
        requires
            self@.wf(),
            emission@.direction is Some,
            emission@.resolves_in(table@),
            emission@.direction == Some(Direction::Left) ==> from <= self@.items.len(),
            emission@.direction == Some(Direction::Right) ==> from < usize::MAX,
            old(sg)@.wf(),
            names_nodes(old(sg)@, old(gate_nodes)@),
            old(sg)@.nodes.dom().contains(source),
            old(sg)@.nodes.dom().contains(target_node),
            ({
                let direction = emission@.direction->0;
                let crossings = crossings_from(
                    self@,
                    beyond(from as int, direction),
                    direction,
                    target_index,
                );
                let flow = Flow {
                    direction,
                    virtual_type: emission@.group_in(table@),
                    own: emission_qubits@.to_set(),
                };
                room_for_walk(old(sg)@, old(gate_nodes)@, flow, crossings, emission_qubits@)
            }),
        ensures
            ({
                let direction = emission@.direction->0;
                let crossings = crossings_from(
                    self@,
                    beyond(from as int, direction),
                    direction,
                    target_index,
                );
                let flow = Flow {
                    direction,
                    virtual_type: emission@.group_in(table@),
                    own: emission_qubits@.to_set(),
                };
                let before = setting_out(old(sg)@, old(gate_nodes)@, emission_qubits@, source);
                &&& final(sg)@.wf()
                &&& names_nodes(final(sg)@, final(gate_nodes)@)
                &&& extends(old(sg)@, final(sg)@)
                &&& wired(
                    before,
                    flow,
                    crossings,
                    emission_qubits@,
                    target_node,
                    final(sg)@,
                    final(gate_nodes)@,
                )
                &&& match result {
                    Ok(_) => rule_refusal(flow, crossings) is None,
                    Err(error) => rule_refusal(flow, crossings) == Some(error@),
                }
            }),
    {
        let direction = match emission.direction {
            Some(direction) => direction,
            None => Direction::Left,
        };
        wire(
            &self.items,
            &self.collectors,
            sg,
            gate_nodes,
            from,
            direction,
            emission.virtual_type(table),
            emission_qubits,
            source,
            target_index,
            target_node,
        )
    }
}

} // verus!
