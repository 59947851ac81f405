//! The track: an emission circuit read as one flat run of positions.
//!
//! Propagation is never recorded in the emission circuit: it is derived from where an emission stands, and
//! this module is what that derivation reads. Flattening the box nesting away is what makes it a scan
//! rather than a tree walk: every box but a collector is dissolved so its gates sit in line, and each
//! collector is reduced to a single position carrying its absorbed run, so "the nearest collector ahead" is
//! just the next [`Item::Collector`] in the travel direction.
//!
//! [`SamplingGraphBuilder`] is the other half: the track is the reading, the builder is what writes a
//! [`SamplingGraph`] out of it.

use vstd::prelude::*;

use crate::annotated_circuit::SynthesizerType;
use crate::collections::IndexMap;
use crate::collections::IndexSet;
use crate::collections::PathMap;
use crate::collections::QuadLookup;
use crate::distributions::DistributionTable;
use crate::distributions::DistributionTableModel;
use crate::emission_circuit::Emit;
use crate::emission_circuit::EmitModel;
use crate::emission_circuit_navigation::lemma_paths_differ;
use crate::emission_circuit_navigation::path_of;
use crate::emission_circuit_navigation::Site;
use crate::emission_circuit_navigation::SiteModel;
use crate::error::ErrorModel;
use crate::error::SamplexError;
use crate::partition::clone_list;
use crate::partition::singleton_parts;
use crate::partition::total;
use crate::partition::whole_parts;
use crate::partition::Partition;
use crate::standard_gate::StandardGate;
use crate::virtual_flow_graph::leads;
use crate::virtual_flow_graph::clone_steps;
use crate::virtual_flow_graph::collect_step_gates;
use crate::virtual_flow_graph::gates_model;
use crate::virtual_flow_graph::new_to;
use crate::virtual_flow_graph::step_gates;
use crate::virtual_flow_graph::steps_model;
use crate::virtual_flow_graph::with_edges;
use crate::virtual_flow_graph::with_node;
use crate::virtual_flow_graph::AbsorbedGate;
use crate::virtual_flow_graph::AbsorbedGateModel;
use crate::virtual_flow_graph::Collect;
use crate::virtual_flow_graph::CollectStep;
use crate::virtual_flow_graph::CollectStepModel;
use crate::virtual_flow_graph::CollectorModel;
use crate::virtual_flow_graph::Direction;
use crate::virtual_flow_graph::Edge;
use crate::virtual_flow_graph::Emission;
use crate::virtual_flow_graph::EmissionModel;
use crate::virtual_flow_graph::GraphModel;
use crate::virtual_flow_graph::Measure;
use crate::virtual_flow_graph::Node;
use crate::virtual_flow_graph::NodeKind;
use crate::virtual_flow_graph::NodeKindModel;
use crate::virtual_flow_graph::NodeModel;
use crate::virtual_flow_graph::Propagate;
use crate::virtual_flow_graph::SamplingGraph;
use crate::virtual_type::propagates;
use crate::virtual_type::propagates_spec;
use crate::virtual_type::VirtualType;

verus! {

// --- What a track is made of --------------------------------------------------------------------

/// One collector, flattened out of the circuit.
#[derive(Debug, PartialEq, Eq)]
pub struct Collector {
    /// Where this collector stood in the emission circuit, which is what identifies it across the two
    /// readings of that circuit.
    pub site: Site,
    /// The collector's qubits. Lowering lists them in ascending order.
    pub qubits: Vec<usize>,
    /// How those qubits group into subsystems, by index into `qubits`.
    pub partition: Partition,
    pub synthesizer: SynthesizerType,
    pub param_indices: Vec<usize>,
    /// Everything this collector composes, in the order it was read out of the body.
    pub steps: Vec<CollectStep>,
}

/// What a flattened collector says.
#[verifier::ext_equal]
pub struct FlatCollector {
    pub site: SiteModel,
    pub qubits: Seq<usize>,
    pub partition: Seq<Seq<usize>>,
    pub synthesizer: SynthesizerType,
    pub param_indices: Seq<usize>,
    pub steps: Seq<CollectStepModel>,
}

impl View for Collector {
    type V = FlatCollector;

    open spec fn view(&self) -> FlatCollector {
        FlatCollector {
            site: self.site@,
            qubits: self.qubits@,
            partition: self.partition@,
            synthesizer: self.synthesizer,
            param_indices: self.param_indices@,
            steps: steps_model(self.steps@),
        }
    }
}

impl FlatCollector {
    /// Whether every one of some qubits is among the collector's.
    pub open spec fn covers(self, qubits: Seq<usize>) -> bool {
        forall|k: int| 0 <= k < qubits.len() ==> self.qubits.contains(#[trigger] qubits[k])
    }

    /// Whether the collector can take an emission on these qubits.
    pub open spec fn takes(
        self,
        emission: EmitModel,
        qubits: Seq<usize>,
        table: DistributionTableModel,
    ) -> bool {
        self.covers(qubits) && self.synthesizer.accepts_type(emission.group_in(table))
    }
}

impl Collector {
    /// The absorbed gates alone, for an enclosing emission crossing this collector: it conjugates by the
    /// gates and ignores what the collector consumes.
    pub fn gates(&self) -> (gates: Vec<&AbsorbedGate>)
        ensures
            gates_model(gates@) == step_gates(self@.steps),
    {
        collect_step_gates(&self.steps)
    }

    /// Whether this collector can take this emission.
    ///
    /// Two conditions: it covers every qubit the emission acts on, since a collector that covers only part
    /// of an emission could not synthesize the whole of what was emitted, and its synthesizer accepts the
    /// emission's virtual type. Nothing here asks which annotated box the emission came from: position and
    /// these two conditions are all of it.
    pub fn accepts(&self, emission: &Emit, qubits: &[usize], table: &DistributionTable) -> (accepted:
        bool)
        requires
            self@.covers(qubits@) ==> emission@.resolves_in(table@),
        ensures
            accepted == self@.takes(emission@, qubits@, table@),
    {
        let mut i: usize = 0;
        while i < qubits.len()
            invariant
                i <= qubits.len(),
                forall|k: int| 0 <= k < i ==> self@.qubits.contains(#[trigger] qubits@[k]),
            decreases qubits.len() - i,
        {
            if !holds(&self.qubits, qubits[i]) {
                assert(!self@.qubits.contains(qubits@[i as int]));
                return false;
            }
            i += 1;
        }
        self.synthesizer.accepts(emission.virtual_type(table))
    }
}

/// Whether a list has a number in it.
fn holds(list: &Vec<usize>, item: usize) -> (found: bool)
    ensures
        found == list@.contains(item),
{
    let mut i: usize = 0;
    while i < list.len()
        invariant
            i <= list.len(),
            forall|k: int| 0 <= k < i ==> list@[k] != item,
        decreases list.len() - i,
    {
        if list[i] == item {
            assert(list@[i as int] == item);
            return true;
        }
        i += 1;
    }
    false
}

/// Where one collector's angles live in the template's parameter vector.
#[derive(Debug, PartialEq, Eq)]
pub struct CollectorParams {
    /// The collect box these angles were minted for. This is what lets
    /// [`Track::attach_param_indices`] find the range belonging to a given collector without relying on the
    /// two walks reporting their collectors in the same order.
    pub site: Site,
    /// The collector's qubits, ascending.
    pub qubits: Vec<usize>,
    pub synthesizer: SynthesizerType,
    /// Indices into the template's parameter vector, grouped per qubit in `qubits` order.
    pub param_indices: Vec<usize>,
}

/// What a collector's parameters say.
#[verifier::ext_equal]
pub struct ParamsModel {
    pub site: SiteModel,
    pub qubits: Seq<usize>,
    pub synthesizer: SynthesizerType,
    pub param_indices: Seq<usize>,
}

impl View for CollectorParams {
    type V = ParamsModel;

    open spec fn view(&self) -> ParamsModel {
        ParamsModel {
            site: self.site@,
            qubits: self.qubits@,
            synthesizer: self.synthesizer,
            param_indices: self.param_indices@,
        }
    }
}

/// What stands at one position on the track.
#[derive(Debug, PartialEq, Eq)]
pub enum Item {
    Emission(Emit, Vec<usize>),
    /// One collector, by its place in the list of collectors.
    Collector(usize),
    Gate(StandardGate, Vec<usize>),
    Measure(Vec<usize>, Vec<usize>),
    Reset(Vec<usize>),
    /// A real operation with no virtual effect, kept so that a position on the track still stands for one
    /// instruction of the circuit it was read from.
    Opaque,
}

/// What a position says.
pub enum ItemModel {
    Emission(EmitModel, Seq<usize>),
    Collector(usize),
    Gate(StandardGate, Seq<usize>),
    Measure(Seq<usize>, Seq<usize>),
    Reset(Seq<usize>),
    Opaque,
}

impl View for Item {
    type V = ItemModel;

    open spec fn view(&self) -> ItemModel {
        match self {
            Item::Emission(emission, qubits) => ItemModel::Emission(emission@, qubits@),
            Item::Collector(index) => ItemModel::Collector(*index),
            Item::Gate(gate, qubits) => ItemModel::Gate(*gate, qubits@),
            Item::Measure(qubits, clbits) => ItemModel::Measure(qubits@, clbits@),
            Item::Reset(qubits) => ItemModel::Reset(qubits@),
            Item::Opaque => ItemModel::Opaque,
        }
    }
}

/// What a flat reading of a circuit says.
#[verifier::ext_equal]
pub struct TrackModel {
    /// The positions, in circuit order.
    pub items: Seq<ItemModel>,
    /// The collectors, in the order the positions refer to them.
    pub collectors: Seq<FlatCollector>,
}

impl TrackModel {
    /// Whether every position that stands for a collector names one.
    pub open spec fn wf(self) -> bool {
        forall|i: int|
            0 <= i < self.items.len() ==> ((#[trigger] self.items[i]) matches ItemModel::Collector(
                index,
            ) ==> index < self.collectors.len())
    }

    /// Whether every emission is still travelling and has parts to draw. One that has resolved in place
    /// lives inside its collector and never stands on a track.
    pub open spec fn travels(self) -> bool {
        forall|i: int|
            0 <= i < self.items.len() ==> ((#[trigger] self.items[i]) matches ItemModel::Emission(
                emission,
                _,
            ) ==> emission.direction is Some && emission.parts.len() > 0)
    }

    /// Whether every emission and every collector has as many qubits as its partition groups.
    pub open spec fn grouped(self) -> bool {
        &&& forall|i: int|
            0 <= i < self.items.len() ==> ((#[trigger] self.items[i]) matches ItemModel::Emission(
                emission,
                qubits,
            ) ==> qubits.len() == total(emission.partition))
        &&& forall|c: int|
            0 <= c < self.collectors.len() ==> (#[trigger] self.collectors[c]).qubits.len() == total(
                self.collectors[c].partition,
            )
    }

    /// Whether no collector at or beyond a position, in a direction, covers some qubits.
    pub open spec fn uncovered(self, at: int, direction: Direction, qubits: Seq<usize>) -> bool {
        forall|i: int|
            0 <= i < self.items.len() && (match direction {
                Direction::Right => at <= i,
                Direction::Left => i <= at,
            }) ==> ((#[trigger] self.items[i]) matches ItemModel::Collector(index)
                ==> !self.collectors[index as int].covers(qubits))
    }
}

/// The position next to another, in a direction.
pub open spec fn beyond(at: int, direction: Direction) -> int {
    match direction {
        Direction::Right => at + 1,
        Direction::Left => at - 1,
    }
}

/// How many positions are left from one on, in a direction.
pub open spec fn remaining(length: nat, at: int, direction: Direction) -> int {
    match direction {
        Direction::Right => length - at,
        Direction::Left => at + 1,
    }
}

/// The first collector, from a position on in a direction, that can take an emission.
pub open spec fn resolution(
    track: TrackModel,
    at: int,
    direction: Direction,
    emission: EmitModel,
    qubits: Seq<usize>,
    table: DistributionTableModel,
) -> Option<usize>
    decreases remaining(track.items.len(), at, direction),
{
    if at < 0 || at >= track.items.len() {
        None
    } else {
        match track.items[at] {
            ItemModel::Collector(index) if track.collectors[index as int].takes(
                emission,
                qubits,
                table,
            ) => Some(index),
            _ => resolution(track, beyond(at, direction), direction, emission, qubits, table),
        }
    }
}

/// What resolution finds is the nearest: it can take the emission, and nothing before it on the way can.
pub proof fn lemma_resolution_is_nearest(
    track: TrackModel,
    at: int,
    direction: Direction,
    emission: EmitModel,
    qubits: Seq<usize>,
    table: DistributionTableModel,
)
    requires
        0 <= at < track.items.len(),
    ensures
        match resolution(track, at, direction, emission, qubits, table) {
            Some(found) => exists|i: int| #[trigger]
                stands_first(track, at, direction, emission, qubits, table, i) && track.items[i]
                    == ItemModel::Collector(found),
            None => forall|i: int|
                0 <= i < track.items.len() && (match direction {
                    Direction::Right => at <= i,
                    Direction::Left => i <= at,
                }) ==> !taken_at(track, emission, qubits, table, i),
        },
    decreases remaining(track.items.len(), at, direction),
{
    let next = beyond(at, direction);
    if taken_at(track, emission, qubits, table, at) {
        assert(stands_first(track, at, direction, emission, qubits, table, at));
    } else {
        assert(resolution(track, at, direction, emission, qubits, table) == resolution(
            track,
            next,
            direction,
            emission,
            qubits,
            table,
        ));
        if 0 <= next < track.items.len() {
            lemma_resolution_is_nearest(track, next, direction, emission, qubits, table);
            if let Some(found) = resolution(track, next, direction, emission, qubits, table) {
                let i = choose|i: int| #[trigger]
                    stands_first(track, next, direction, emission, qubits, table, i)
                        && track.items[i] == ItemModel::Collector(found);
                assert(stands_first(track, at, direction, emission, qubits, table, i));
            }
        }
    }
}

/// Whether the collector at a position, if there is one, can take an emission.
pub open spec fn taken_at(
    track: TrackModel,
    emission: EmitModel,
    qubits: Seq<usize>,
    table: DistributionTableModel,
    at: int,
) -> bool {
    track.items[at] matches ItemModel::Collector(index) && track.collectors[index as int].takes(
        emission,
        qubits,
        table,
    )
}

/// Whether, of the positions from one on in a direction, another is the first whose collector can take an
/// emission.
pub open spec fn stands_first(
    track: TrackModel,
    at: int,
    direction: Direction,
    emission: EmitModel,
    qubits: Seq<usize>,
    table: DistributionTableModel,
    found: int,
) -> bool {
    &&& 0 <= found < track.items.len()
    &&& taken_at(track, emission, qubits, table, found)
    &&& match direction {
        Direction::Right => at <= found && forall|i: int|
            at <= i < found ==> !#[trigger] taken_at(track, emission, qubits, table, i),
        Direction::Left => found <= at && forall|i: int|
            found < i <= at ==> !#[trigger] taken_at(track, emission, qubits, table, i),
    }
}

/// Scan from `start` in `direction` for the first collector that can take this emission.
pub(crate) fn nearest_collector(
    items: &Vec<Item>,
    collectors: &Vec<Collector>,
    start: usize,
    direction: Direction,
    emission: &Emit,
    qubits: &[usize],
    table: &DistributionTable,
) -> (found: Option<usize>)
    requires
        read(items@, collectors@).wf(),
        direction is Left ==> start <= items@.len(),
        direction is Right ==> start < usize::MAX,
        emission@.resolves_in(table@) || read(items@, collectors@).uncovered(
            beyond(start as int, direction),
            direction,
            qubits@,
        ),
    ensures
        found == resolution(
            read(items@, collectors@),
            beyond(start as int, direction),
            direction,
            emission@,
            qubits@,
            table@,
        ),
{
    let ghost track = read(items@, collectors@);
    let ghost first = beyond(start as int, direction);
    let count: usize = items.len();
    let mut passed: usize = 0;
    let total: usize = match direction {
        Direction::Right => if start < count {
            count - start - 1
        } else {
            0
        },
        Direction::Left => start,
    };
    while passed < total
        invariant
            passed <= total,
            track == read(items@, collectors@),
            track.wf(),
            first == beyond(start as int, direction),
            count == items@.len(),
            direction is Left ==> start <= count,
            match direction {
                Direction::Right => total == if start < count {
                    count - start - 1
                } else {
                    0
                },
                Direction::Left => total == start,
            },
            emission@.resolves_in(table@) || track.uncovered(first, direction, qubits@),
            resolution(track, first, direction, emission@, qubits@, table@) == resolution(
                track,
                match direction {
                    Direction::Right => start + 1 + passed,
                    Direction::Left => start - 1 - passed,
                },
                direction,
                emission@,
                qubits@,
                table@,
            ),
        decreases total - passed,
    {
        let at: usize = match direction {
            Direction::Right => start + 1 + passed,
            Direction::Left => start - 1 - passed,
        };
        assert(track.items[at as int] == items@[at as int]@);
        if let Item::Collector(index) = &items[at] {
            let index: usize = *index;
            assert(track.collectors[index as int] == collectors@[index as int]@);
            if collectors[index].accepts(emission, qubits, table) {
                return Some(index);
            }
        }
        passed += 1;
    }
    None
}

/// What a list of positions and the collectors they refer to say.
pub open spec fn read(items: Seq<Item>, collectors: Seq<Collector>) -> TrackModel {
    TrackModel {
        items: items.map_values(|item: Item| item@),
        collectors: collectors.map_values(|collector: Collector| collector@),
    }
}

// --- The track ----------------------------------------------------------------------------------

/// The circuit as a flat sequence, which is what makes the propagation walk a simple scan.
pub struct Track {
    /// The positions, in circuit order.
    items: Vec<Item>,
    /// The collectors, in the order the positions refer to them.
    collectors: Vec<Collector>,
}

impl View for Track {
    type V = TrackModel;

    closed spec fn view(&self) -> TrackModel {
        read(self.items@, self.collectors@)
    }
}

impl Default for Track {
    fn default() -> (track: Self)
        ensures
            track@.items == Seq::<ItemModel>::empty(),
            track@.collectors == Seq::<FlatCollector>::empty(),
    {
        let track = Track { items: Vec::new(), collectors: Vec::new() };
        assert(track@.items =~= Seq::<ItemModel>::empty());
        assert(track@.collectors =~= Seq::<FlatCollector>::empty());
        track
    }
}

impl Track {
    /// Build a track from a flat reading already in hand.
    ///
    /// This is the constructor that keeps the propagation rules reachable without a circuit. The index in
    /// every [`Item::Collector`] must be a position in `collectors` for anything to be read off the track;
    /// that is the one invariant a caller upholds, and the reason [`Track::push_collector`] exists for the
    /// incremental case.
    pub fn new(items: Vec<Item>, collectors: Vec<Collector>) -> (track: Self)
        ensures
            track@ == read(items@, collectors@),
    {
        Track { items, collectors }
    }

    /// The collectors, in the order the positions refer to them.
    pub fn collectors(&self) -> (collectors: &Vec<Collector>)
        ensures
            collectors@.map_values(|collector: Collector| collector@) == self@.collectors,
    {
        &self.collectors
    }

    /// Append one position.
    pub fn push_item(&mut self, item: Item)
        ensures
            final(self)@.items == old(self)@.items.push(item@),
            final(self)@.collectors == old(self)@.collectors,
    {
        let ghost before = self@;
        let ghost said = item@;
        self.items.push(item);
        assert(self@.items =~= before.items.push(said));
    }

    /// Append a collector together with the position that stands for it, keeping the two in step.
    ///
    /// The pairing is why the fields are not public: a position naming no collector is not a state a
    /// caller should be able to reach one push at a time.
    pub fn push_collector(&mut self, collector: Collector)
        ensures
            final(self)@.items == old(self)@.items.push(
                ItemModel::Collector(old(self)@.collectors.len() as usize),
            ),
            final(self)@.collectors == old(self)@.collectors.push(collector@),
            old(self)@.wf() ==> final(self)@.wf(),
    {
        let ghost before = self@;
        let ghost said = collector@;
        let index: usize = self.collectors.len();
        self.items.push(Item::Collector(index));
        self.collectors.push(collector);
        proof {
            assert(self@.items =~= before.items.push(ItemModel::Collector(index)));
            assert(self@.collectors =~= before.collectors.push(said));
            if before.wf() {
                assert forall|i: int| 0 <= i < self@.items.len() implies ((
                #[trigger] self@.items[i]) matches ItemModel::Collector(named) ==> named
                    < self@.collectors.len()) by {
                    if i < before.items.len() {
                        assert(self@.items[i] == before.items[i]);
                    }
                }
            }
        }
    }

    /// Scan from `start` in `direction` for the first collector that can take this emission.
    ///
    /// Proximity decides, filtered by [`Collector::accepts`]. A collector that declines is simply crossed,
    /// so an emission travels until it finds one that can take it, out of the box it started in and on
    /// through whatever it passes. Reaching the end of the circuit is the `None` case.
    pub fn resolve_collector(
        &self,
        start: usize,
        direction: Direction,
        emission: &Emit,
        qubits: &[usize],
        table: &DistributionTable,
    ) -> (found: Option<usize>)
        requires
            self@.wf(),
            direction is Left ==> start <= self@.items.len(),
            direction is Right ==> start < usize::MAX,
            emission@.resolves_in(table@) || self@.uncovered(
                beyond(start as int, direction),
                direction,
                qubits@,
            ),
        ensures
            found == resolution(
                self@,
                beyond(start as int, direction),
                direction,
                emission@,
                qubits@,
                table@,
            ),
    {
        nearest_collector(
            &self.items,
            &self.collectors,
            start,
            direction,
            emission,
            qubits,
            table,
        )
    }

    /// Give each collector the parameter range the template minted for the same collect box.
    ///
    /// The join is on [`Site`] and not on position: the two readings of the emission circuit are different
    /// walks, so a shared arrival order is a convention neither is in a position to check. A collect box
    /// only one of them saw is reported, since the alternative is a range landing on the wrong synthesized
    /// layer.
    pub fn attach_param_indices(&mut self, params: &[CollectorParams]) -> (result: Result<
        (),
        SamplexError,
    >)
        ensures
            final(self)@.items == old(self)@.items,
            match result {
                Ok(_) => join_refusal(params_model(params@), old(self)@.collectors) is None,
                Err(error) => join_refusal(params_model(params@), old(self)@.collectors) == Some(
                    error@,
                ),
            },
            final(self)@.collectors == joined(
                params_model(params@),
                old(self)@.collectors,
                join_reach(params_model(params@), old(self)@.collectors),
            ),
    {
        let ghost before = self@;
        let ghost minted = params_model(params@);
        let ghost named = minted_sites(minted);
        let mut by_site = PathMap::new();
        let count: usize = params.len();
        let mut i: usize = 0;
        while i < count
            invariant
                i <= count,
                before == old(self)@,
                count == params@.len(),
                minted == params_model(params@),
                named == minted_sites(minted),
                self@ == before,
                by_site@.dom().finite(),
                by_site@.dom().len() == i,
                named.take(i as int).no_duplicates(),
                forall|site: SiteModel| #[trigger]
                    by_site@.dom().contains(path_of(site)) <==> named.take(i as int).contains(site),
                forall|k: int|
                    0 <= k < i ==> by_site@.dom().contains(path_of(#[trigger] named[k]))
                        && by_site@[path_of(named[k])] == k,
            decreases count - i,
        {
            let ghost known = by_site@;
            let ghost done = named.take(i as int);
            let ghost next = named.take(i + 1);
            let ghost site = named[i as int];
            proof {
                assert(next =~= done.push(site));
                assert(minted[i as int] == params@[i as int]@);
            }
            let path = params[i].site.path();
            let earlier = by_site.insert(path, i);
            if earlier.is_some() {
                proof {
                    assert(known.dom().contains(path_of(site)));
                    lemma_first_repeat(named, i as int);
                    assert(joined(minted, before.collectors, 0) =~= before.collectors);
                }
                return Err(SamplexError::DuplicateCollectorParams(params[i].site.clone()));
            }
            proof {
                assert(!known.dom().contains(path_of(site)));
                assert(!done.contains(site));
                assert forall|other: SiteModel| #[trigger]
                    by_site@.dom().contains(path_of(other)) <==> next.contains(other) by {
                    assert(known.dom().contains(path_of(other)) <==> done.contains(other));
                    lemma_paths_differ(other, site);
                    assert(next[i as int] == site);
                    if done.contains(other) {
                        assert(next[done.index_of(other)] == other);
                    }
                    if next.contains(other) && other != site {
                        assert(done[next.index_of(other)] == other);
                    }
                }
                assert forall|k: int| 0 <= k < i + 1 implies by_site@.dom().contains(
                    path_of(#[trigger] named[k]),
                ) && by_site@[path_of(named[k])] == k by {
                    if k < i {
                        assert(done[k] == named[k]);
                        assert(done.contains(named[k]));
                        lemma_paths_differ(named[k], site);
                    }
                }
            }
            i += 1;
        }
        proof {
            assert(named.take(i as int) =~= named);
            lemma_no_repeat(named);
            assert(joined(minted, before.collectors, 0) =~= before.collectors);
        }
        let ghost all = by_site@;
        let ghost sites = collector_sites(before.collectors);
        let width: usize = self.collectors.len();
        let mut c: usize = 0;
        while c < width
            invariant
                c <= width,
                before == old(self)@,
                count == params@.len(),
                width == before.collectors.len(),
                self.collectors@.len() == width,
                minted == params_model(params@),
                named == minted_sites(minted),
                named.no_duplicates(),
                first_repeat(named) is None,
                sites == collector_sites(before.collectors),
                self@.items == before.items,
                self@.collectors == joined(minted, before.collectors, c as nat),
                sites.take(c as int).no_duplicates(),
                forall|k: int| 0 <= k < c ==> named.contains(#[trigger] sites[k]),
                by_site@.dom().finite(),
                by_site@.dom().len() == count - c,
                forall|site: SiteModel| #[trigger]
                    by_site@.dom().contains(path_of(site)) <==> named.contains(site)
                        && !sites.take(c as int).contains(site),
                forall|site: SiteModel| #[trigger]
                    by_site@.dom().contains(path_of(site)) ==> by_site@[path_of(site)]
                        == named.index_of(site),
            decreases width - c,
        {
            let ghost left = by_site@;
            let ghost done = sites.take(c as int);
            let ghost next = sites.take(c + 1);
            let ghost given = before.collectors[c as int];
            let ghost site = sites[c as int];
            proof {
                assert(next =~= done.push(site));
                assert(self@.collectors[c as int] == self.collectors@[c as int]@);
                assert(self@.collectors[c as int] == given);
                assert(next[c as int] == site);
            }
            let path = self.collectors[c].site.path();
            match by_site.remove(&path) {
                Some(entry) => {
                    proof {
                        assert(left.dom().contains(path_of(site)));
                        assert(named[named.index_of(site)] == site);
                        assert(minted[entry as int] == params@[entry as int]@);
                    }
                    let ghost others = self.collectors@;
                    self.collectors[c].param_indices = clone_list(&params[entry].param_indices);
                    proof {
                        assert(self.collectors@[c as int]@ == with_range(minted, given));
                        assert forall|k: int| 0 <= k < width implies self@.collectors[k] == joined(
                            minted,
                            before.collectors,
                            (c + 1) as nat,
                        )[k] by {
                            if k != c {
                                assert(self.collectors@[k] == others[k]);
                                assert(joined(minted, before.collectors, c as nat)[k]
                                    == others[k]@);
                            }
                        }
                        assert(self@.collectors =~= joined(
                            minted,
                            before.collectors,
                            (c + 1) as nat,
                        ));
                        assert(self@.items =~= before.items);
                        assert(!done.contains(site));
                        assert forall|other: SiteModel| #[trigger]
                            by_site@.dom().contains(path_of(other)) <==> named.contains(other)
                                && !next.contains(other) by {
                            lemma_paths_differ(other, site);
                            assert(left.dom().contains(path_of(other)) <==> named.contains(other)
                                && !done.contains(other));
                            if done.contains(other) {
                                assert(next[done.index_of(other)] == other);
                            }
                            if next.contains(other) && other != site {
                                assert(done[next.index_of(other)] == other);
                            }
                        }
                        assert forall|other: SiteModel| #[trigger]
                            by_site@.dom().contains(path_of(other)) implies by_site@[path_of(other)]
                            == named.index_of(other) by {
                            assert(left.dom().contains(path_of(other)));
                        }
                    }
                },
                None => {
                    proof {
                        assert(!left.dom().contains(path_of(site)));
                        lemma_first_unclaimed(named, sites, c as int);
                    }
                    return Err(
                        SamplexError::CollectorNotInTemplate(self.collectors[c].site.clone()),
                    );
                },
            }
            c += 1;
        }
        proof {
            assert(sites.take(c as int) =~= sites);
            lemma_all_claimed(named, sites);
            assert(join_reach(minted, before.collectors) == c as nat);
        }
        let mut i: usize = 0;
        while i < count
            invariant
                i <= count,
                before == old(self)@,
                count == params@.len(),
                width == before.collectors.len(),
                minted == params_model(params@),
                named == minted_sites(minted),
                first_repeat(named) is None,
                sites == collector_sites(before.collectors),
                first_unclaimed(named, sites, 0) is None,
                self@.items == before.items,
                self@.collectors == joined(
                    minted,
                    before.collectors,
                    join_reach(minted, before.collectors),
                ),
                by_site@.dom().len() == count - width,
                forall|site: SiteModel| #[trigger]
                    by_site@.dom().contains(path_of(site)) <==> named.contains(site)
                        && !sites.contains(site),
                first_unmatched(named, sites, 0) == first_unmatched(named, sites, i as int),
            decreases count - i,
        {
            assert(minted[i as int] == params@[i as int]@);
            let path = params[i].site.path();
            assert(named.contains(named[i as int]));
            if by_site.contains(&path) {
                assert(by_site@.dom().contains(path_of(named[i as int])));
                let left: usize = by_site.len();
                return Err(
                    SamplexError::CollectorsNotInGraph { count: left, site: params[i].site.clone() },
                );
            }
            i += 1;
        }
        Ok(())
    }
}

// --- Joining parameters to collectors -----------------------------------------------------------

/// What a list of parameters says, one by one.
pub open spec fn params_model(params: Seq<CollectorParams>) -> Seq<ParamsModel> {
    params.map_values(|entry: CollectorParams| entry@)
}

/// The sites parameters were minted for, one by one.
pub open spec fn minted_sites(params: Seq<ParamsModel>) -> Seq<SiteModel> {
    params.map_values(|entry: ParamsModel| entry.site)
}

/// The sites of some collectors, one by one.
pub open spec fn collector_sites(collectors: Seq<FlatCollector>) -> Seq<SiteModel> {
    collectors.map_values(|collector: FlatCollector| collector.site)
}

/// The first site that was already there before, reading from the front.
pub open spec fn first_repeat(sites: Seq<SiteModel>) -> Option<SiteModel>
    decreases sites.len(),
{
    if sites.len() == 0 {
        None
    } else {
        match first_repeat(sites.drop_last()) {
            Some(site) => Some(site),
            None => if sites.drop_last().contains(sites.last()) {
                Some(sites.last())
            } else {
                None
            },
        }
    }
}

/// The first place, from one on, whose site is not among those named or was there before.
pub open spec fn first_unclaimed(
    named: Seq<SiteModel>,
    sites: Seq<SiteModel>,
    from: int,
) -> Option<int>
    decreases sites.len() - from,
{
    if from < 0 || from >= sites.len() {
        None
    } else if !named.contains(sites[from]) || sites.take(from).contains(sites[from]) {
        Some(from)
    } else {
        first_unclaimed(named, sites, from + 1)
    }
}

/// The first site named, from a place on, that is not among some sites.
pub open spec fn first_unmatched(
    named: Seq<SiteModel>,
    sites: Seq<SiteModel>,
    from: int,
) -> Option<SiteModel>
    decreases named.len() - from,
{
    if from < 0 || from >= named.len() {
        None
    } else if !sites.contains(named[from]) {
        Some(named[from])
    } else {
        first_unmatched(named, sites, from + 1)
    }
}

/// Why parameters and collectors do not join: two ranges for one site, else the first collector without a
/// range left for it, else the ranges left over, the first of them named.
pub open spec fn join_refusal(params: Seq<ParamsModel>, collectors: Seq<FlatCollector>) -> Option<
    ErrorModel,
> {
    let named = minted_sites(params);
    let sites = collector_sites(collectors);
    match first_repeat(named) {
        Some(site) => Some(ErrorModel::DuplicateCollectorParams(site)),
        None => match first_unclaimed(named, sites, 0) {
            Some(c) => Some(ErrorModel::CollectorNotInTemplate(sites[c])),
            None => match first_unmatched(named, sites, 0) {
                Some(site) => Some(
                    ErrorModel::CollectorsNotInGraph {
                        count: (params.len() - collectors.len()) as nat,
                        site,
                    },
                ),
                None => None,
            },
        },
    }
}

/// How many collectors get their range: all, unless the join is refused before.
pub open spec fn join_reach(params: Seq<ParamsModel>, collectors: Seq<FlatCollector>) -> nat {
    let named = minted_sites(params);
    if first_repeat(named) is Some {
        0
    } else {
        match first_unclaimed(named, collector_sites(collectors), 0) {
            Some(c) => c as nat,
            None => collectors.len(),
        }
    }
}

/// A collector with the range minted for its site.
pub open spec fn with_range(params: Seq<ParamsModel>, collector: FlatCollector) -> FlatCollector {
    FlatCollector {
        param_indices: params[minted_sites(params).index_of(collector.site)].param_indices,
        ..collector
    }
}

/// Collectors once the first of them have the ranges minted for their sites.
pub open spec fn joined(
    params: Seq<ParamsModel>,
    collectors: Seq<FlatCollector>,
    count: nat,
) -> Seq<FlatCollector> {
    Seq::new(
        collectors.len(),
        |c: int|
            if c < count {
                with_range(params, collectors[c])
            } else {
                collectors[c]
            },
    )
}

proof fn lemma_no_repeat(sites: Seq<SiteModel>)
    requires
        sites.no_duplicates(),
    ensures
        first_repeat(sites) is None,
    decreases sites.len(),
{
    if sites.len() > 0 {
        let front = sites.drop_last();
        lemma_no_repeat(front);
        if front.contains(sites.last()) {
            let k = front.index_of(sites.last());
            assert(sites[k] == sites[sites.len() - 1]);
        }
    }
}

proof fn lemma_first_repeat(sites: Seq<SiteModel>, at: int)
    requires
        0 <= at < sites.len(),
        sites.take(at).no_duplicates(),
        sites.take(at).contains(sites[at]),
    ensures
        first_repeat(sites) == Some(sites[at]),
    decreases sites.len(),
{
    let front = sites.drop_last();
    if at == sites.len() - 1 {
        assert(front =~= sites.take(at));
        lemma_no_repeat(front);
    } else {
        assert(front.take(at) =~= sites.take(at));
        lemma_first_repeat(front, at);
    }
}

proof fn lemma_first_unclaimed(named: Seq<SiteModel>, sites: Seq<SiteModel>, at: int)
    requires
        0 <= at < sites.len(),
        sites.take(at).no_duplicates(),
        forall|k: int| 0 <= k < at ==> named.contains(#[trigger] sites[k]),
        !named.contains(sites[at]) || sites.take(at).contains(sites[at]),
    ensures
        first_unclaimed(named, sites, 0) == Some(at),
{
    lemma_unclaimed_from(named, sites, at, at);
}

proof fn lemma_unclaimed_from(named: Seq<SiteModel>, sites: Seq<SiteModel>, at: int, back: int)
    requires
        0 <= back <= at <= sites.len(),
        sites.take(at).no_duplicates(),
        forall|k: int| 0 <= k < at ==> named.contains(#[trigger] sites[k]),
    ensures
        first_unclaimed(named, sites, at - back) == first_unclaimed(named, sites, at),
    decreases back,
{
    if back > 0 {
        lemma_unclaimed_from(named, sites, at, back - 1);
        let here = at - back;
        assert(named.contains(sites[here]));
        assert(!sites.take(here).contains(sites[here])) by {
            if sites.take(here).contains(sites[here]) {
                let k = sites.take(here).index_of(sites[here]);
                assert(sites.take(at)[k] == sites.take(at)[here]);
            }
        }
    }
}

proof fn lemma_all_claimed(named: Seq<SiteModel>, sites: Seq<SiteModel>)
    requires
        sites.no_duplicates(),
        forall|k: int| 0 <= k < sites.len() ==> named.contains(#[trigger] sites[k]),
    ensures
        first_unclaimed(named, sites, 0) is None,
{
    assert(sites.take(sites.len() as int) =~= sites);
    lemma_unclaimed_from(named, sites, sites.len() as int, sites.len() as int);
}

/// Parameters minted for exactly the sites of the collectors, each once, join.
pub proof fn lemma_equal_sites_join(params: Seq<ParamsModel>, collectors: Seq<FlatCollector>)
    requires
        minted_sites(params) == collector_sites(collectors),
        minted_sites(params).no_duplicates(),
    ensures
        join_refusal(params, collectors) is None,
{
    let sites = minted_sites(params);
    lemma_no_repeat(sites);
    assert forall|k: int| 0 <= k < sites.len() implies sites.contains(#[trigger] sites[k]) by {}
    lemma_all_claimed(sites, sites);
    lemma_all_matched(sites, 0);
}

proof fn lemma_all_matched(sites: Seq<SiteModel>, from: int)
    requires
        0 <= from <= sites.len(),
    ensures
        first_unmatched(sites, sites, from) is None,
    decreases sites.len() - from,
{
    if from < sites.len() {
        assert(sites.contains(sites[from]));
        lemma_all_matched(sites, from + 1);
    }
}

/// Where parameters and collectors join, every collector ends up with the range minted for its own site,
/// whatever order the two sides came in.
pub proof fn lemma_each_collector_gets_its_own_range(
    params: Seq<ParamsModel>,
    collectors: Seq<FlatCollector>,
    p: int,
    c: int,
)
    requires
        join_refusal(params, collectors) is None,
        0 <= p < params.len(),
        0 <= c < collectors.len(),
        params[p].site == collectors[c].site,
    ensures
        joined(params, collectors, join_reach(params, collectors))[c].param_indices
            == params[p].param_indices,
{
    let named = minted_sites(params);
    lemma_repeat_free(named);
    assert(named[p] == collectors[c].site);
    assert(named.contains(named[p]));
}

proof fn lemma_repeat_free(sites: Seq<SiteModel>)
    requires
        first_repeat(sites) is None,
    ensures
        sites.no_duplicates(),
    decreases sites.len(),
{
    if sites.len() > 0 {
        let front = sites.drop_last();
        lemma_repeat_free(front);
        assert forall|i: int, j: int| 0 <= i < sites.len() && 0 <= j < sites.len() && i != j implies sites[i]
            != sites[j] by {
            if i == sites.len() - 1 {
                assert(front[j] == sites[j]);
                assert(front.contains(front[j]));
            } else if j == sites.len() - 1 {
                assert(front[i] == sites[i]);
                assert(front.contains(front[i]));
            } else {
                assert(front[i] == sites[i] && front[j] == sites[j]);
            }
        }
    }
}

// --- Crossings ----------------------------------------------------------------------------------

/// One gate an emission meets on its way: where it stands, and what it is. The offset is the position
/// within a collector's absorbed run, and zero for a gate that stands on its own.
#[derive(Debug, PartialEq, Eq)]
pub struct Crossing {
    pub position: usize,
    pub offset: usize,
    pub gate: StandardGate,
    pub qubits: Vec<usize>,
}

/// What a crossing says.
#[verifier::ext_equal]
pub struct CrossingModel {
    pub position: usize,
    pub offset: usize,
    pub gate: StandardGate,
    pub qubits: Seq<usize>,
}

impl View for Crossing {
    type V = CrossingModel;

    open spec fn view(&self) -> CrossingModel {
        CrossingModel {
            position: self.position,
            offset: self.offset,
            gate: self.gate,
            qubits: self.qubits@,
        }
    }
}

/// What a list of crossings says, one by one.
pub open spec fn crossings_model(list: Seq<Crossing>) -> Seq<CrossingModel> {
    list.map_values(|crossing: Crossing| crossing@)
}

/// The place within a run of gates that is met as the `k`-th, in a direction.
pub open spec fn met_as(length: nat, k: int, direction: Direction) -> int {
    match direction {
        Direction::Right => k,
        Direction::Left => length - 1 - k,
    }
}

/// The gates of a collector, as they are met crossing it in a direction.
pub open spec fn run_crossings(
    position: int,
    gates: Seq<AbsorbedGateModel>,
    direction: Direction,
) -> Seq<CrossingModel> {
    Seq::new(
        gates.len(),
        |k: int|
            CrossingModel {
                position: position as usize,
                offset: met_as(gates.len(), k, direction) as usize,
                gate: gates[met_as(gates.len(), k, direction)].gate,
                qubits: gates[met_as(gates.len(), k, direction)].qubits,
            },
    )
}

/// The gates met from a position on in a direction, up to the collector headed for. A foreign collector's
/// absorbed gates are still real gates on the path, so they are met too.
pub open spec fn crossings_from(
    track: TrackModel,
    at: int,
    direction: Direction,
    target: usize,
) -> Seq<CrossingModel>
    decreases remaining(track.items.len(), at, direction),
{
    if at < 0 || at >= track.items.len() {
        Seq::empty()
    } else {
        match track.items[at] {
            ItemModel::Collector(index) => if index == target {
                Seq::empty()
            } else {
                run_crossings(at, step_gates(track.collectors[index as int].steps), direction)
                    + crossings_from(track, beyond(at, direction), direction, target)
            },
            ItemModel::Gate(gate, qubits) => seq![
                CrossingModel { position: at as usize, offset: 0, gate, qubits },
            ] + crossings_from(track, beyond(at, direction), direction, target),
            _ => crossings_from(track, beyond(at, direction), direction, target),
        }
    }
}

/// What a track has to cross at a place: at a gate's position that gate, and at a collector's each gate it absorbed.
pub open spec fn gate_at(track: TrackModel, position: int, offset: int) -> Option<
    (StandardGate, Seq<usize>),
> {
    match track.items[position] {
        ItemModel::Gate(gate, qubits) => if offset == 0 {
            Some((gate, qubits))
        } else {
            None
        },
        ItemModel::Collector(index) => {
            let gates = step_gates(track.collectors[index as int].steps);
            if 0 <= offset < gates.len() {
                Some((gates[offset].gate, gates[offset].qubits))
            } else {
                None
            }
        },
        _ => None,
    }
}

/// Whether a position is met from another on in a direction, before the collector headed for is.
pub open spec fn on_the_way(
    track: TrackModel,
    at: int,
    direction: Direction,
    target: usize,
    position: int,
) -> bool {
    let (first, last) = match direction {
        Direction::Right => (at, position),
        Direction::Left => (position, at),
    };
    &&& 0 <= first <= last < track.items.len()
    &&& forall|i: int|
        first <= i <= last ==> (#[trigger] track.items[i]) != ItemModel::Collector(target)
}

/// Whether of two crossings one is nearer than another, in a direction.
pub open spec fn met_sooner(one: CrossingModel, other: CrossingModel, direction: Direction) -> bool {
    match direction {
        Direction::Right => one.position < other.position || (one.position == other.position
            && one.offset < other.offset),
        Direction::Left => other.position < one.position || (one.position == other.position
            && other.offset < one.offset),
    }
}

/// Whether a place is among some crossings.
pub open spec fn crosses(crossings: Seq<CrossingModel>, position: int, offset: int) -> bool {
    exists|i: int|
        0 <= i < crossings.len() && (#[trigger] crossings[i]).position == position
            && crossings[i].offset == offset
}

/// An emission meets every gate between it and the collector it is headed for, those other collectors absorbed too,
/// each once and nearest first, and no other: on its way right in circuit order, on its way left against it.
pub proof fn lemma_crossings_are_the_gates_on_the_way(
    track: TrackModel,
    at: int,
    direction: Direction,
    target: usize,
)
    requires
        track.items.len() <= usize::MAX,
        forall|c: int|
            0 <= c < track.collectors.len() ==> step_gates(
                (#[trigger] track.collectors[c]).steps,
            ).len() <= usize::MAX,
        track.wf(),
    ensures
        ({
            let crossings = crossings_from(track, at, direction, target);
            &&& forall|i: int|
                0 <= i < crossings.len() ==> {
                    let crossing = #[trigger] crossings[i];
                    &&& on_the_way(track, at, direction, target, crossing.position as int)
                    &&& gate_at(track, crossing.position as int, crossing.offset as int) == Some(
                        (crossing.gate, crossing.qubits),
                    )
                }
            &&& forall|i: int, j: int|
                0 <= i < j < crossings.len() ==> met_sooner(
                    #[trigger] crossings[i],
                    #[trigger] crossings[j],
                    direction,
                )
            &&& forall|position: int, offset: int|
                on_the_way(track, at, direction, target, position) && (#[trigger] gate_at(
                    track,
                    position,
                    offset,
                )) is Some ==> crosses(crossings, position, offset)
        }),
    decreases remaining(track.items.len(), at, direction),
{
    let crossings = crossings_from(track, at, direction, target);
    if 0 <= at < track.items.len() && track.items[at] != ItemModel::Collector(target) {
        let next = beyond(at, direction);
        lemma_crossings_are_the_gates_on_the_way(track, next, direction, target);
        let rest = crossings_from(track, next, direction, target);
        let here = match track.items[at] {
            ItemModel::Collector(index) => run_crossings(
                at,
                step_gates(track.collectors[index as int].steps),
                direction,
            ),
            ItemModel::Gate(gate, qubits) => seq![
                CrossingModel { position: at as usize, offset: 0, gate, qubits },
            ],
            _ => Seq::empty(),
        };
        assert(crossings =~= here + rest);
        if let ItemModel::Collector(index) = track.items[at] {
            assert(index < track.collectors.len());
            assert(step_gates(track.collectors[index as int].steps).len() <= usize::MAX);
        }
        assert forall|i: int| 0 <= i < here.len() implies (#[trigger] here[i]).position == at
            && gate_at(track, at, here[i].offset as int) == Some((here[i].gate, here[i].qubits)) by {}
        assert forall|p: int| #[trigger] on_the_way(track, next, direction, target, p) implies on_the_way(
            track,
            at,
            direction,
            target,
            p,
        ) && p != at by {
            assert forall|i: int|
                (match direction {
                    Direction::Right => at <= i <= p,
                    Direction::Left => p <= i <= at,
                }) implies (#[trigger] track.items[i]) != ItemModel::Collector(target) by {
                if i == at {
                } else {
                    assert(track.items[i] != ItemModel::Collector(target));
                }
            }
        }
        assert forall|i: int| 0 <= i < crossings.len() implies ({
            let crossing = #[trigger] crossings[i];
            &&& on_the_way(track, at, direction, target, crossing.position as int)
            &&& gate_at(track, crossing.position as int, crossing.offset as int) == Some(
                (crossing.gate, crossing.qubits),
            )
        }) by {
            if i < here.len() {
                assert(crossings[i] == here[i]);
                assert(on_the_way(track, at, direction, target, at));
            } else {
                assert(crossings[i] == rest[i - here.len()]);
                assert(on_the_way(
                    track,
                    next,
                    direction,
                    target,
                    rest[i - here.len()].position as int,
                ));
            }
        }
        assert forall|i: int, j: int| 0 <= i < j < crossings.len() implies met_sooner(
            #[trigger] crossings[i],
            #[trigger] crossings[j],
            direction,
        ) by {
            if j < here.len() {
                assert(crossings[i] == here[i] && crossings[j] == here[j]);
            } else if i >= here.len() {
                assert(crossings[i] == rest[i - here.len()]);
                assert(crossings[j] == rest[j - here.len()]);
            } else {
                assert(crossings[i] == here[i]);
                let far = rest[j - here.len()];
                assert(crossings[j] == far);
                assert(on_the_way(track, next, direction, target, far.position as int));
            }
        }
        assert forall|position: int, offset: int|
            on_the_way(track, at, direction, target, position) && (#[trigger] gate_at(
                track,
                position,
                offset,
            )) is Some implies crosses(crossings, position, offset) by {
            if position == at {
                let k = match track.items[at] {
                    ItemModel::Collector(index) => met_as(
                        step_gates(track.collectors[index as int].steps).len(),
                        offset,
                        direction,
                    ),
                    _ => 0,
                };
                assert(here[k].position == position && here[k].offset == offset);
                assert(crossings[k] == here[k]);
            } else {
                assert(on_the_way(track, next, direction, target, position));
                assert(crosses(rest, position, offset));
                let k = choose|k: int|
                    0 <= k < rest.len() && (#[trigger] rest[k]).position == position
                        && rest[k].offset == offset;
                assert(crossings[here.len() + k] == rest[k]);
            }
        }
    } else {
        assert(crossings =~= Seq::<CrossingModel>::empty());
        assert forall|position: int| !(#[trigger] on_the_way(track, at, direction, target, position)) by {
            if on_the_way(track, at, direction, target, position) {
                assert(track.items[at] != ItemModel::Collector(target));
            }
        }
    }
}

/// The gates met from a position on in a direction, up to the collector headed for.
fn list_crossings(
    items: &Vec<Item>,
    collectors: &Vec<Collector>,
    from: usize,
    direction: Direction,
    target: usize,
) -> (list: Vec<Crossing>)
    requires
        read(items@, collectors@).wf(),
        direction is Left ==> from <= items@.len(),
        direction is Right ==> from < usize::MAX,
    ensures
        crossings_model(list@) == crossings_from(
            read(items@, collectors@),
            beyond(from as int, direction),
            direction,
            target,
        ),
{
    let ghost track = read(items@, collectors@);
    let ghost first = beyond(from as int, direction);
    let ghost whole = crossings_from(track, first, direction, target);
    let count: usize = items.len();
    let mut list: Vec<Crossing> = Vec::new();
    let total: usize = match direction {
        Direction::Right => if from < count {
            count - from - 1
        } else {
            0
        },
        Direction::Left => from,
    };
    let mut passed: usize = 0;
    assert(crossings_model(list@) + whole =~= whole);
    while passed < total
        invariant
            passed <= total,
            track == read(items@, collectors@),
            track.wf(),
            count == items@.len(),
            direction is Left ==> from <= count,
            match direction {
                Direction::Right => total == if from < count {
                    count - from - 1
                } else {
                    0
                },
                Direction::Left => total == from,
            },
            whole == crossings_from(track, beyond(from as int, direction), direction, target),
            whole == crossings_model(list@) + crossings_from(
                track,
                match direction {
                    Direction::Right => from + 1 + passed,
                    Direction::Left => from - 1 - passed,
                },
                direction,
                target,
            ),
        decreases total - passed,
    {
        let at: usize = match direction {
            Direction::Right => from + 1 + passed,
            Direction::Left => from - 1 - passed,
        };
        let ghost before = crossings_model(list@);
        let ghost rest = crossings_from(track, beyond(at as int, direction), direction, target);
        assert(track.items[at as int] == items@[at as int]@);
        match &items[at] {
            Item::Collector(index) => {
                let index: usize = *index;
                if index == target {
                    assert(before + Seq::<CrossingModel>::empty() =~= before);
                    return list;
                }
                assert(track.collectors[index as int] == collectors@[index as int]@);
                let gates = collectors[index].gates();
                let ghost said = gates_model(gates@);
                let ghost run = run_crossings(at as int, said, direction);
                let length: usize = gates.len();
                let mut k: usize = 0;
                assert(before + run.take(0) =~= before);
                while k < length
                    invariant
                        k <= length,
                        length == gates@.len(),
                        said == gates_model(gates@),
                        run == run_crossings(at as int, said, direction),
                        crossings_model(list@) == before + run.take(k as int),
                    decreases length - k,
                {
                    let offset: usize = match direction {
                        Direction::Right => k,
                        Direction::Left => length - 1 - k,
                    };
                    let ghost listed = list@;
                    assert(said[offset as int] == gates@[offset as int]@);
                    list.push(
                        Crossing {
                            position: at,
                            offset,
                            gate: gates[offset].gate,
                            qubits: clone_list(&gates[offset].qubits),
                        },
                    );
                    proof {
                        assert(crossings_model(list@) =~= crossings_model(listed).push(run[k as int]));
                        assert(crossings_model(list@) =~= before + run.take(k + 1));
                    }
                    k += 1;
                }
                assert(run.take(k as int) =~= run);
                assert((before + run) + rest =~= before + (run + rest));
            },
            Item::Gate(gate, qubits) => {
                let ghost one = CrossingModel {
                    position: at,
                    offset: 0,
                    gate: *gate,
                    qubits: qubits@,
                };
                list.push(
                    Crossing { position: at, offset: 0, gate: *gate, qubits: clone_list(qubits) },
                );
                proof {
                    assert(crossings_model(list@) =~= before.push(one));
                    assert(before.push(one) + rest =~= before + (seq![one] + rest));
                }
            },
            _ => {},
        }
        passed += 1;
    }
    assert(crossings_model(list@) + Seq::<CrossingModel>::empty() =~= crossings_model(list@));
    list
}

// --- Chaining -----------------------------------------------------------------------------------

/// The number a direction goes by in a key.
pub open spec fn side(direction: Direction) -> u8 {
    match direction {
        Direction::Left => 0,
        Direction::Right => 1,
    }
}

/// The number a virtual type goes by in a key.
pub open spec fn rank(virtual_type: VirtualType) -> u8 {
    match virtual_type {
        VirtualType::Pauli => 0,
        VirtualType::C1 => 1,
        VirtualType::U2 => 2,
        VirtualType::Z2 => 3,
    }
}

/// What identifies one conjugation node: a gate occurrence together with the flow crossing it.
///
/// Direction and virtual type are in the key because they change what the node computes, so sharing across
/// them would fuse operations that cannot be evaluated as one.
pub type GateKey = (usize, usize, u8, u8);

/// The key of the node for a crossing by a flow.
pub open spec fn gate_key(
    crossing: CrossingModel,
    direction: Direction,
    virtual_type: VirtualType,
) -> GateKey {
    (crossing.position, crossing.offset, side(direction), rank(virtual_type))
}

/// Flows share a conjugation only if they cross the same occurrence the same way with the same type.
pub proof fn lemma_keys_tell_flows_apart(
    left: CrossingModel,
    left_direction: Direction,
    left_type: VirtualType,
    right: CrossingModel,
    right_direction: Direction,
    right_type: VirtualType,
)
    requires
        gate_key(left, left_direction, left_type) == gate_key(right, right_direction, right_type),
    ensures
        left.position == right.position,
        left.offset == right.offset,
        left_direction == right_direction,
        left_type == right_type,
{
}

/// The conjugation nodes made so far, by what they stand for.
pub struct GateNodes {
    lookup: QuadLookup,
}

impl View for GateNodes {
    type V = Map<GateKey, u32>;

    closed spec fn view(&self) -> Map<GateKey, u32> {
        self.lookup@
    }
}

impl GateNodes {
    /// No conjugation nodes.
    pub fn new() -> (nodes: Self)
        ensures
            nodes@.dom() == Set::<GateKey>::empty(),
    {
        GateNodes { lookup: QuadLookup::new() }
    }

    fn get(&self, key: GateKey) -> (found: Option<u32>)
        ensures
            found == (if self@.dom().contains(key) {
                Some(self@[key])
            } else {
                None
            }),
    {
        self.lookup.get(key)
    }

    fn insert(&mut self, key: GateKey, node: u32)
        ensures
            final(self)@ == old(self)@.insert(key, node),
    {
        self.lookup.insert(key, node);
    }
}

impl Default for GateNodes {
    fn default() -> (nodes: Self)
        ensures
            nodes@.dom() == Set::<GateKey>::empty(),
    {
        Self::new()
    }
}

/// What an emission carries on its walk, fixed for the whole of it: which way it goes, the type of what was
/// emitted, and its own wires. A gate touching none of them is not on its path.
#[verifier::ext_equal]
pub struct Flow {
    pub direction: Direction,
    pub virtual_type: VirtualType,
    pub own: Set<usize>,
}

/// A walk under way: the graph, the conjugation nodes made so far, and where the virtual state on each of
/// its wires currently ends.
#[verifier::ext_equal]
pub struct WalkState {
    pub graph: GraphModel,
    pub gates: Map<GateKey, u32>,
    pub frontier: Map<usize, usize>,
}

impl Flow {
    /// Whether a gate is on the path.
    pub open spec fn touched(self, crossing: CrossingModel) -> bool {
        exists|k: int|
            0 <= k < crossing.qubits.len() && self.own.contains(#[trigger] crossing.qubits[k])
    }

    /// Whether a gate is on the path and takes what was emitted out of its group.
    pub open spec fn refused(self, crossing: CrossingModel) -> bool {
        self.touched(crossing) && !propagates_spec(self.virtual_type, crossing.gate)
    }
}

/// The nodes the virtual state on some wires ends at, each once, in the order the wires come in.
pub open spec fn met(frontier: Map<usize, usize>, qubits: Seq<usize>) -> Seq<u32>
    decreases qubits.len(),
{
    if qubits.len() == 0 {
        Seq::empty()
    } else {
        let before = met(frontier, qubits.drop_last());
        let qubit = qubits.last();
        if frontier.dom().contains(qubit) && !before.contains(frontier[qubit] as u32) {
            before.push(frontier[qubit] as u32)
        } else {
            before
        }
    }
}

/// Where the virtual state on its own wires ends once it passed a node on some qubits.
pub open spec fn moved(
    frontier: Map<usize, usize>,
    own: Set<usize>,
    qubits: Seq<usize>,
    node: u32,
) -> Map<usize, usize>
    decreases qubits.len(),
{
    if qubits.len() == 0 {
        frontier
    } else {
        let before = moved(frontier, own, qubits.drop_last(), node);
        if own.contains(qubits.last()) {
            before.insert(qubits.last(), node as usize)
        } else {
            before
        }
    }
}

/// Edges from some nodes to one.
pub open spec fn edges_into(sources: Seq<u32>, target: u32) -> Seq<(u32, u32, Edge)> {
    sources.map_values(|source: u32| (source, target, Edge { virtual_type: None }))
}

/// The node for a crossing by a flow. It is one joint subsystem: a conjugation by a multi-qubit gate mixes
/// its qubits, so they can only be evaluated together.
pub open spec fn conjugation(crossing: CrossingModel, direction: Direction) -> NodeModel {
    NodeModel {
        qubits: crossing.qubits,
        partition: whole_parts(crossing.qubits.len()),
        kind: NodeKindModel::Propagate(Propagate { gate: crossing.gate, direction }),
    }
}

/// Whether a walk is another that crossed a gate on its path, a node not there yet going by `index` and the
/// new edges by `ids`: a node for it is made unless it is there, edges lead to it from where the
/// gate's wires ended, and its own ones among them end at it.
pub open spec fn crossed_as(
    before: WalkState,
    flow: Flow,
    crossing: CrossingModel,
    index: u32,
    ids: Seq<u32>,
    after: WalkState,
) -> bool {
    let key = gate_key(crossing, flow.direction, flow.virtual_type);
    let there = before.gates.dom().contains(key);
    let node = if there {
        before.gates[key]
    } else {
        index
    };
    let graph = if there {
        before.graph
    } else {
        with_node(before.graph, index, conjugation(crossing, flow.direction))
    };
    let sources = met(before.frontier, crossing.qubits);
    &&& there || !before.graph.nodes.dom().contains(index)
    &&& new_to(before.graph.edges.dom(), ids)
    &&& ids.len() == sources.len()
    &&& after.graph == with_edges(graph, ids, edges_into(sources, node))
    &&& after.gates == before.gates.insert(key, node)
    &&& after.frontier == moved(before.frontier, flow.own, crossing.qubits, node)
}

/// Whether a walk is another that met a gate, which changes nothing unless it is on the path.
pub open spec fn crossed(
    before: WalkState,
    flow: Flow,
    crossing: CrossingModel,
    after: WalkState,
) -> bool {
    if flow.touched(crossing) {
        exists|index: u32, ids: Seq<u32>| #[trigger]
            crossed_as(before, flow, crossing, index, ids, after)
    } else {
        after == before
    }
}

/// Whether a walk is another that met gates, one after another.
pub open spec fn journeyed(
    before: WalkState,
    flow: Flow,
    crossings: Seq<CrossingModel>,
    after: WalkState,
) -> bool
    decreases crossings.len(),
{
    if crossings.len() == 0 {
        after == before
    } else {
        exists|middle: WalkState|
            journeyed(before, flow, crossings.drop_last(), middle) && #[trigger] crossed(
                middle,
                flow,
                crossings.last(),
                after,
            )
    }
}

/// The first gate, from a place on, that is on the path and has no rule.
pub open spec fn first_refused(flow: Flow, crossings: Seq<CrossingModel>, from: int) -> Option<int>
    decreases crossings.len() - from,
{
    if from < 0 || from >= crossings.len() {
        None
    } else if flow.refused(crossings[from]) {
        Some(from)
    } else {
        first_refused(flow, crossings, from + 1)
    }
}

/// The gates a walk gets past: all of them, or those before the first on its path that has no rule.
pub open spec fn passed(flow: Flow, crossings: Seq<CrossingModel>) -> Seq<CrossingModel> {
    match first_refused(flow, crossings, 0) {
        None => crossings,
        Some(k) => crossings.take(k),
    }
}

/// What the nodes a walk past some gates goes through are kept under: one for each gate on its path.
pub open spec fn conjugations(flow: Flow, crossings: Seq<CrossingModel>) -> Set<GateKey>
    decreases crossings.len(),
{
    if crossings.len() == 0 {
        Set::empty()
    } else {
        let before = conjugations(flow, crossings.drop_last());
        if flow.touched(crossings.last()) {
            before.insert(gate_key(crossings.last(), flow.direction, flow.virtual_type))
        } else {
            before
        }
    }
}

/// What the virtual state on each wire of an emission ends at once it got past some gates: the emission itself, or
/// the last conjugation it went through there.
pub open spec fn ends_after(flow: Flow, crossings: Seq<CrossingModel>) -> Map<usize, Option<GateKey>>
    decreases crossings.len(),
{
    if crossings.len() == 0 {
        Map::new(|qubit: usize| flow.own.contains(qubit), |qubit: usize| None)
    } else {
        let before = ends_after(flow, crossings.drop_last());
        let crossing = crossings.last();
        Map::new(
            |qubit: usize| flow.own.contains(qubit),
            |qubit: usize|
                if crossing.qubits.contains(qubit) {
                    Some(gate_key(crossing, flow.direction, flow.virtual_type))
                } else {
                    before[qubit]
                },
        )
    }
}

/// What the virtual state on some wires ends at, each once.
pub open spec fn ends_on(ends: Map<usize, Option<GateKey>>, qubits: Seq<usize>) -> Set<
    Option<GateKey>,
>
    decreases qubits.len(),
{
    if qubits.len() == 0 {
        Set::empty()
    } else {
        let before = ends_on(ends, qubits.drop_last());
        if ends.dom().contains(qubits.last()) {
            before.insert(ends[qubits.last()])
        } else {
            before
        }
    }
}

/// How many edges lead a walk into the gates it gets past, together: one into each from wherever its wires there
/// ended.
pub open spec fn edges_between(flow: Flow, crossings: Seq<CrossingModel>) -> nat
    decreases crossings.len(),
{
    if crossings.len() == 0 {
        0
    } else {
        edges_between(flow, crossings.drop_last()) + ends_on(
            ends_after(flow, crossings.drop_last()),
            crossings.last().qubits,
        ).len()
    }
}

/// How many edges a walk takes: those into the gates it gets past, and those into the collector if it gets there.
pub open spec fn edges_along(flow: Flow, crossings: Seq<CrossingModel>, qubits: Seq<usize>) -> nat {
    edges_between(flow, passed(flow, crossings)) + (match first_refused(flow, crossings, 0) {
        None => ends_on(ends_after(flow, crossings), qubits).len(),
        Some(_) => 0,
    })
}

/// Whether numbers are left for what a walk makes: a node for each gate on its path that has none yet, and its
/// edges.
pub open spec fn room_for_walk(
    graph: GraphModel,
    gates: Map<GateKey, u32>,
    flow: Flow,
    crossings: Seq<CrossingModel>,
    qubits: Seq<usize>,
) -> bool {
    let needed = conjugations(flow, passed(flow, crossings)).difference(gates.dom());
    &&& graph.nodes.dom().len() + needed.len() <= u32::MAX
    &&& graph.edges.dom().len() + edges_along(flow, crossings, qubits) <= u32::MAX
}

/// Whether a graph has what a walk makes and no more: a node for each gate on its path that had none, and its
/// edges.
pub open spec fn made_for_walk(
    before: GraphModel,
    gates: Map<GateKey, u32>,
    flow: Flow,
    crossings: Seq<CrossingModel>,
    qubits: Seq<usize>,
    after: GraphModel,
    gates_after: Map<GateKey, u32>,
) -> bool {
    let used = conjugations(flow, passed(flow, crossings));
    &&& gates_after.dom() == gates.dom().union(used)
    &&& after.nodes.dom().len() == before.nodes.dom().len() + used.difference(gates.dom()).len()
    &&& after.edges.dom().len() <= before.edges.dom().len() + edges_along(flow, crossings, qubits)
}

/// Where a walk stands before it meets anything: every wire of the emission ends at the emission.
pub open spec fn setting_out(
    graph: GraphModel,
    gates: Map<GateKey, u32>,
    qubits: Seq<usize>,
    source: u32,
) -> WalkState {
    WalkState {
        graph,
        gates,
        frontier: Map::new(|qubit: usize| qubits.contains(qubit), |qubit: usize| source as usize),
    }
}

/// Whether a walk that ended is closed off: whatever each wire's virtual state ended up as leads to the
/// collector.
pub open spec fn arrived(
    walked: WalkState,
    qubits: Seq<usize>,
    target: u32,
    ids: Seq<u32>,
    graph: GraphModel,
) -> bool {
    let ends = met(walked.frontier, qubits);
    &&& new_to(walked.graph.edges.dom(), ids)
    &&& ids.len() == ends.len()
    &&& graph == with_edges(walked.graph, ids, edges_into(ends, target))
}

/// Whether what a walk refers to is in its graph.
pub open spec fn sound(state: WalkState) -> bool {
    &&& state.graph.wf()
    &&& names_nodes(state.graph, state.gates)
    &&& forall|qubit: usize| #[trigger]
        state.frontier.dom().contains(qubit) ==> state.frontier[qubit] <= u32::MAX
            && state.graph.nodes.dom().contains(state.frontier[qubit] as u32)
}

/// Whether every conjugation node made so far is in the graph.
pub open spec fn names_nodes(graph: GraphModel, gates: Map<GateKey, u32>) -> bool {
    forall|key: GateKey| #[trigger]
        gates.dom().contains(key) ==> graph.nodes.dom().contains(gates[key])
}

/// Whether a graph has every node of another, unchanged, and is grouped if the other is.
pub open spec fn extends(before: GraphModel, after: GraphModel) -> bool {
    &&& forall|node: u32| #[trigger]
        before.nodes.dom().contains(node) ==> after.nodes.dom().contains(node) && after.nodes[node]
            == before.nodes[node]
    &&& before.grouped() ==> after.grouped()
}

/// Whether the virtual state on some wire ends at a node.
spec fn ends_at(frontier: Map<usize, usize>, node: u32) -> bool {
    exists|q: usize| #[trigger] frontier.dom().contains(q) && frontier[q] as u32 == node
}

proof fn lemma_met(frontier: Map<usize, usize>, qubits: Seq<usize>)
    ensures
        met(frontier, qubits).len() <= qubits.len(),
        met(frontier, qubits).no_duplicates(),
        forall|k: int|
            0 <= k < met(frontier, qubits).len() ==> ends_at(
                frontier,
                #[trigger] met(frontier, qubits)[k],
            ),
    decreases qubits.len(),
{
    if qubits.len() > 0 {
        lemma_met(frontier, qubits.drop_last());
        let before = met(frontier, qubits.drop_last());
        let qubit = qubits.last();
        let after = met(frontier, qubits);
        assert forall|k: int| 0 <= k < after.len() implies ends_at(frontier, #[trigger] after[k]) by {
            if k < before.len() {
                assert(after[k] == before[k]);
            } else {
                assert(frontier.dom().contains(qubit) && frontier[qubit] as u32 == after[k]);
            }
        }
    }
}

proof fn lemma_moved(
    frontier: Map<usize, usize>,
    own: Set<usize>,
    qubits: Seq<usize>,
    node: u32,
)
    ensures
        forall|q: usize| #[trigger]
            moved(frontier, own, qubits, node).dom().contains(q) ==> (frontier.dom().contains(q)
                && moved(frontier, own, qubits, node)[q] == frontier[q]) || moved(
                frontier,
                own,
                qubits,
                node,
            )[q] == node,
        forall|q: usize| #[trigger]
            frontier.dom().contains(q) ==> moved(frontier, own, qubits, node).dom().contains(q),
    decreases qubits.len(),
{
    if qubits.len() > 0 {
        lemma_moved(frontier, own, qubits.drop_last(), node);
        let before = moved(frontier, own, qubits.drop_last(), node);
        let after = moved(frontier, own, qubits, node);
        assert forall|q: usize| #[trigger] after.dom().contains(q) implies (frontier.dom().contains(q)
            && after[q] == frontier[q]) || after[q] == node by {
            if q != qubits.last() || !own.contains(qubits.last()) {
                assert(before.dom().contains(q));
            }
        }
    }
}

/// The node a wire's virtual state ends at.
spec fn end_node(source: u32, gates: Map<GateKey, u32>, end: Option<GateKey>) -> u32 {
    match end {
        None => source,
        Some(key) => gates[key],
    }
}

/// Whether a frontier is where a walk's wires end, by the nodes those ends go by.
spec fn frontier_at(
    source: u32,
    gates: Map<GateKey, u32>,
    ends: Map<usize, Option<GateKey>>,
    frontier: Map<usize, usize>,
) -> bool {
    &&& frontier.dom() == ends.dom()
    &&& forall|qubit: usize| #[trigger]
        ends.dom().contains(qubit) ==> frontier[qubit] == end_node(source, gates, ends[qubit])
            && (ends[qubit] matches Some(key) ==> gates.dom().contains(key))
}

/// There are no more nodes to lead from than ends.
proof fn lemma_met_ends(
    source: u32,
    gates: Map<GateKey, u32>,
    ends: Map<usize, Option<GateKey>>,
    frontier: Map<usize, usize>,
    qubits: Seq<usize>,
)
    requires
        frontier_at(source, gates, ends, frontier),
    ensures
        ends_on(ends, qubits).finite(),
        met(frontier, qubits).len() <= ends_on(ends, qubits).len(),
        forall|end: Option<GateKey>| #[trigger]
            ends_on(ends, qubits).contains(end) ==> met(frontier, qubits).contains(
                end_node(source, gates, end),
            ),
    decreases qubits.len(),
{
    if qubits.len() > 0 {
        let front = qubits.drop_last();
        let qubit = qubits.last();
        lemma_met_ends(source, gates, ends, frontier, front);
        let before = met(frontier, front);
        let after = met(frontier, qubits);
        if ends.dom().contains(qubit) {
            let node = end_node(source, gates, ends[qubit]);
            assert(frontier[qubit] as u32 == node);
            assert(after.contains(node)) by {
                if !before.contains(node) {
                    assert(after[before.len() as int] == node);
                }
            }
        }
        assert forall|end: Option<GateKey>| #[trigger]
            ends_on(ends, qubits).contains(end) implies after.contains(
            end_node(source, gates, end),
        ) by {
            if ends_on(ends, front).contains(end) {
                let k = before.index_of(end_node(source, gates, end));
                assert(before[k] == end_node(source, gates, end));
                assert(after[k] == before[k]);
            }
        }
    }
}

/// Where each wire ends once a node on some qubits was passed.
proof fn lemma_moved_to(frontier: Map<usize, usize>, own: Set<usize>, qubits: Seq<usize>, node: u32)
    requires
        frontier.dom() == own,
    ensures
        moved(frontier, own, qubits, node).dom() == own,
        forall|qubit: usize| #[trigger]
            own.contains(qubit) ==> moved(frontier, own, qubits, node)[qubit] == if qubits.contains(
                qubit,
            ) {
                node as usize
            } else {
                frontier[qubit]
            },
    decreases qubits.len(),
{
    if qubits.len() > 0 {
        let front = qubits.drop_last();
        let last = qubits.last();
        lemma_moved_to(frontier, own, front, node);
        assert(moved(frontier, own, qubits, node).dom() =~= own);
        assert forall|qubit: usize| #[trigger] own.contains(qubit) implies moved(
            frontier,
            own,
            qubits,
            node,
        )[qubit] == if qubits.contains(qubit) {
            node as usize
        } else {
            frontier[qubit]
        } by {
            assert(qubits[qubits.len() - 1] == last);
            if front.contains(qubit) {
                assert(qubits[front.index_of(qubit)] == qubit);
            }
            if qubits.contains(qubit) && qubit != last {
                assert(front[qubits.index_of(qubit)] == qubit);
            }
        }
    } else {
        assert forall|qubit: usize| !qubits.contains(qubit) by {}
    }
}

/// Getting past a gate moves the ends as it moves the frontier.
proof fn lemma_ends_move(
    source: u32,
    before: WalkState,
    flow: Flow,
    crossings: Seq<CrossingModel>,
    after: WalkState,
)
    requires
        crossings.len() > 0,
        crossed(before, flow, crossings.last(), after),
        frontier_at(
            source,
            before.gates,
            ends_after(flow, crossings.drop_last()),
            before.frontier,
        ),
    ensures
        frontier_at(source, after.gates, ends_after(flow, crossings), after.frontier),
{
    let front = crossings.drop_last();
    let crossing = crossings.last();
    let few = ends_after(flow, front);
    let more = ends_after(flow, crossings);
    let key = gate_key(crossing, flow.direction, flow.virtual_type);
    assert(few.dom() =~= flow.own);
    assert(more.dom() =~= flow.own);
    if flow.touched(crossing) {
        let (index, ids) = choose|index: u32, ids: Seq<u32>| #[trigger]
            crossed_as(before, flow, crossing, index, ids, after);
        let node = after.gates[key];
        lemma_moved_to(before.frontier, flow.own, crossing.qubits, node);
        assert forall|qubit: usize| #[trigger] more.dom().contains(qubit) implies after.frontier[qubit]
            == end_node(source, after.gates, more[qubit]) && (more[qubit] matches Some(other)
            ==> after.gates.dom().contains(other)) by {
            assert(flow.own.contains(qubit));
            assert(few.dom().contains(qubit));
        }
    } else {
        assert forall|qubit: usize| #[trigger] more.dom().contains(qubit) implies more[qubit]
            == few[qubit] by {
            if crossing.qubits.contains(qubit) {
                let k = crossing.qubits.index_of(qubit);
                assert(crossing.qubits[k] == qubit);
            }
        }
    }
}

/// The first gate without a rule comes no earlier than the search for it starts.
pub(crate) proof fn lemma_first_refused(flow: Flow, crossings: Seq<CrossingModel>, from: int)
    requires
        0 <= from <= crossings.len(),
    ensures
        first_refused(flow, crossings, from) matches Some(k) ==> from <= k < crossings.len(),
    decreases crossings.len() - from,
{
    if from < crossings.len() && !flow.refused(crossings[from]) {
        lemma_first_refused(flow, crossings, from + 1);
    }
}

/// A shorter walk needs nothing that a longer one does not.
pub(crate) proof fn lemma_needs_take(flow: Flow, crossings: Seq<CrossingModel>, k: int)
    requires
        0 <= k <= crossings.len(),
    ensures
        conjugations(flow, crossings).finite(),
        conjugations(flow, crossings.take(k)).finite(),
        conjugations(flow, crossings.take(k)).subset_of(conjugations(flow, crossings)),
        edges_between(flow, crossings.take(k)) <= edges_between(flow, crossings),
    decreases crossings.len(),
{
    if k < crossings.len() {
        let front = crossings.drop_last();
        assert(front.take(k) =~= crossings.take(k));
        lemma_needs_take(flow, front, k);
    } else {
        assert(crossings.take(k) =~= crossings);
        if crossings.len() > 0 {
            let front = crossings.drop_last();
            lemma_needs_take(flow, front, front.len() as int);
            assert(front.take(front.len() as int) =~= front);
        }
    }
}

/// Collect the nodes the virtual state on some wires ends at.
fn collect_met(frontier: &IndexMap, qubits: &Vec<usize>) -> (sources: Vec<u32>)
    requires
        forall|q: usize| #[trigger] frontier@.dom().contains(q) ==> frontier@[q] <= u32::MAX,
    ensures
        sources@ == met(frontier@, qubits@),
{
    let mut sources: Vec<u32> = Vec::new();
    let mut seen = IndexSet::new();
    let mut i: usize = 0;
    while i < qubits.len()
        invariant
            i <= qubits.len(),
            forall|q: usize| #[trigger] frontier@.dom().contains(q) ==> frontier@[q] <= u32::MAX,
            sources@ == met(frontier@, qubits@.take(i as int)),
            forall|node: u32| #[trigger]
                seen@.contains(node as usize) <==> sources@.contains(node),
        decreases qubits.len() - i,
    {
        let ghost before = sources@;
        let ghost known = seen@;
        proof {
            assert(qubits@.take(i + 1).drop_last() =~= qubits@.take(i as int));
            assert(qubits@.take(i + 1).last() == qubits@[i as int]);
        }
        if let Some(end) = frontier.get(qubits[i]) {
            assert(frontier@.dom().contains(qubits@[i as int]));
            let node = end as u32;
            assert(node as usize == end);
            assert(known.contains(node as usize) <==> before.contains(node));
            if seen.insert(end) {
                sources.push(node);
                proof {
                    assert forall|other: u32| #[trigger] seen@.contains(other as usize)
                        <==> sources@.contains(other) by {
                        assert(known.contains(other as usize) <==> before.contains(other));
                        assert(sources@[before.len() as int] == node);
                        if before.contains(other) {
                            assert(sources@[before.index_of(other)] == other);
                        }
                        if sources@.contains(other) && other != node {
                            assert(before[sources@.index_of(other)] == other);
                        }
                    }
                }
            } else {
                assert forall|other: u32| #[trigger] seen@.contains(other as usize)
                    <==> sources@.contains(other) by {
                    assert(known.contains(other as usize) <==> before.contains(other));
                }
            }
        }
        i += 1;
    }
    assert(qubits@.take(i as int) =~= qubits@);
    sources
}

/// Add an edge from each of some nodes to one.
fn lead_into(sg: &mut SamplingGraph, sources: &Vec<u32>, target: u32) -> (ids: Vec<u32>)
    requires
        old(sg)@.wf(),
        old(sg)@.nodes.dom().contains(target),
        forall|k: int|
            0 <= k < sources@.len() ==> old(sg)@.nodes.dom().contains(#[trigger] sources@[k]),
        old(sg)@.edges.dom().len() + sources@.len() <= u32::MAX,
    ensures
        ids@.len() == sources@.len(),
        new_to(old(sg)@.edges.dom(), ids@),
        final(sg)@ == with_edges(old(sg)@, ids@, edges_into(sources@, target)),
        final(sg)@.wf(),
        final(sg)@.nodes == old(sg)@.nodes,
        final(sg)@.edges.dom().len() == old(sg)@.edges.dom().len() + sources@.len(),
{
    let ghost before = sg@;
    let ghost edges = edges_into(sources@, target);
    let mut ids: Vec<u32> = Vec::new();
    let mut i: usize = 0;
    while i < sources.len()
        invariant
            i <= sources.len(),
            before.wf(),
            before.nodes.dom().contains(target),
            forall|k: int|
                0 <= k < sources@.len() ==> before.nodes.dom().contains(#[trigger] sources@[k]),
            before.edges.dom().len() + sources@.len() <= u32::MAX,
            edges == edges_into(sources@, target),
            ids@.len() == i,
            new_to(before.edges.dom(), ids@),
            sg@ == with_edges(before, ids@, edges.take(i as int)),
            sg@.wf(),
            sg@.nodes == before.nodes,
            sg@.edges.dom().len() == before.edges.dom().len() + i,
            forall|id: u32| #[trigger]
                sg@.edges.dom().contains(id) <==> before.edges.dom().contains(id) || ids@.contains(id),
        decreases sources.len() - i,
    {
        let ghost known = sg@;
        let ghost given = ids@;
        assert(before.nodes.dom().contains(sources@[i as int]));
        let id = sg.add_edge(sources[i], target, Edge::new());
        ids.push(id);
        proof {
            let more = edges.take(i + 1);
            assert(more.drop_last() =~= edges.take(i as int));
            assert(more.last() == edges[i as int]);
            assert(ids@.drop_last() =~= given);
            assert(!known.edges.dom().contains(id));
            assert(new_to(before.edges.dom(), ids@)) by {
                assert forall|a: int, b: int| 0 <= a < ids@.len() && 0 <= b < ids@.len() && a != b
                    implies ids@[a] != ids@[b] by {
                    if a < i {
                        assert(given.contains(given[a]));
                    }
                    if b < i {
                        assert(given.contains(given[b]));
                    }
                }
            }
            assert forall|other: u32| #[trigger] sg@.edges.dom().contains(other)
                <==> before.edges.dom().contains(other) || ids@.contains(other) by {
                assert(known.edges.dom().contains(other) <==> before.edges.dom().contains(other)
                    || given.contains(other));
                assert(ids@[i as int] == id);
                if given.contains(other) {
                    assert(ids@[given.index_of(other)] == other);
                }
                if ids@.contains(other) && other != id {
                    assert(given[ids@.index_of(other)] == other);
                }
            }
        }
        i += 1;
    }
    assert(edges.take(i as int) =~= edges);
    ids
}

/// Whether any of some qubits is one of its own.
fn any_own(own: &IndexSet, qubits: &Vec<usize>) -> (any: bool)
    ensures
        any == (exists|k: int| 0 <= k < qubits@.len() && own@.contains(#[trigger] qubits@[k])),
{
    let mut i: usize = 0;
    while i < qubits.len()
        invariant
            i <= qubits.len(),
            forall|k: int| 0 <= k < i ==> !own@.contains(#[trigger] qubits@[k]),
        decreases qubits.len() - i,
    {
        if own.contains(qubits[i]) {
            assert(own@.contains(qubits@[i as int]));
            return true;
        }
        i += 1;
    }
    false
}

/// The number a direction goes by in a key.
fn side_of(direction: Direction) -> (number: u8)
    ensures
        number == side(direction),
{
    match direction {
        Direction::Left => 0,
        Direction::Right => 1,
    }
}

/// The number a virtual type goes by in a key.
fn rank_of(virtual_type: VirtualType) -> (number: u8)
    ensures
        number == rank(virtual_type),
{
    match virtual_type {
        VirtualType::Pauli => 0,
        VirtualType::C1 => 1,
        VirtualType::U2 => 2,
        VirtualType::Z2 => 3,
    }
}

/// Add or reuse the node for one gate and advance the walk's frontier over its qubits.
fn chain(
    sg: &mut SamplingGraph,
    gate_nodes: &mut GateNodes,
    frontier: &mut IndexMap,
    own: &IndexSet,
    direction: Direction,
    virtual_type: VirtualType,
    crossing: &Crossing,
) -> (result: Result<(), SamplexError>)
    requires
        sound(WalkState { graph: old(sg)@, gates: old(gate_nodes)@, frontier: old(frontier)@ }),
        ({
            let flow = Flow { direction, virtual_type, own: own@ };
            let key = gate_key(crossing@, direction, virtual_type);
            !flow.refused(crossing@) ==> {
                &&& flow.touched(crossing@) && !old(gate_nodes)@.dom().contains(key)
                    ==> old(sg)@.nodes.dom().len() < u32::MAX
                &&& flow.touched(crossing@) ==> old(sg)@.edges.dom().len() + met(
                    old(frontier)@,
                    crossing@.qubits,
                ).len() <= u32::MAX
            }
        }),
    ensures
        ({
            let before = WalkState {
                graph: old(sg)@,
                gates: old(gate_nodes)@,
                frontier: old(frontier)@,
            };
            let after = WalkState {
                graph: final(sg)@,
                gates: final(gate_nodes)@,
                frontier: final(frontier)@,
            };
            let flow = Flow { direction, virtual_type, own: own@ };
            let key = gate_key(crossing@, direction, virtual_type);
            &&& sound(after)
            &&& extends(before.graph, after.graph)
            &&& match result {
                Ok(_) => {
                    &&& !flow.refused(crossing@)
                    &&& crossed(before, flow, crossing@, after)
                    &&& after.gates.dom() == if flow.touched(crossing@) {
                        before.gates.dom().insert(key)
                    } else {
                        before.gates.dom()
                    }
                    &&& after.graph.nodes.dom().len() == before.graph.nodes.dom().len() + (if flow.touched(
                        crossing@,
                    ) && !before.gates.dom().contains(key) {
                        1int
                    } else {
                        0int
                    })
                    &&& after.graph.edges.dom().len() == before.graph.edges.dom().len() + (if flow.touched(
                        crossing@,
                    ) {
                        met(before.frontier, crossing@.qubits).len() as int
                    } else {
                        0int
                    })
                },
                Err(error) => flow.refused(crossing@) && error@ == (ErrorModel::NoPropagationRule {
                    virtual_type,
                    gate: crossing@.gate,
                }) && after == before,
            }
        }),
{
    let ghost before = WalkState { graph: sg@, gates: gate_nodes@, frontier: frontier@ };
    let ghost flow = Flow { direction, virtual_type, own: own@ };
    if !any_own(own, &crossing.qubits) {
        assert(!flow.touched(crossing@));
        return Ok(());
    }
    assert(flow.touched(crossing@));
    // Refuse rather than make a node that cannot be evaluated: conjugating this virtual type by this gate
    // leaves its group, so there is no rule to apply.
    if !propagates(virtual_type, crossing.gate) {
        return Err(SamplexError::NoPropagationRule { virtual_type, gate: crossing.gate });
    }
    let key = (crossing.position, crossing.offset, side_of(direction), rank_of(virtual_type));
    let ghost there = before.gates.dom().contains(key);
    let node = match gate_nodes.get(key) {
        Some(node) => node,
        None => {
            let made = Node::joint(
                clone_list(&crossing.qubits),
                NodeKind::Propagate(Propagate { gate: crossing.gate, direction }),
            );
            let node = sg.add_node(made);
            gate_nodes.insert(key, node);
            node
        },
    };
    let ghost base = sg@;
    let width: usize = crossing.qubits.len();
    proof {
        assert(there ==> before.gates.insert(key, node) =~= before.gates);
        assert(gate_nodes@ =~= before.gates.insert(key, node));
        if !there {
            assert(base == with_node(before.graph, node, conjugation(crossing@, direction)));
            assert(base.nodes.dom() =~= before.graph.nodes.dom().insert(node));
            crate::partition::lemma_whole_is_a_partition(width);
        } else {
            assert(before.graph.nodes.dom().contains(before.gates[key]));
        }
        assert(base.nodes.dom().contains(node));
        assert(extends(before.graph, base)) by {
            assert forall|other: u32| #[trigger] before.graph.nodes.dom().contains(other) implies
                base.nodes.dom().contains(other) && base.nodes[other] == before.graph.nodes[other] by {}
            if before.graph.grouped() {
                assert forall|other: u32| #[trigger] base.nodes.dom().contains(other) implies
                    base.nodes[other].qubits.len() == total(base.nodes[other].partition) by {
                    if other != node || there {
                        assert(before.graph.nodes.dom().contains(other));
                    }
                }
            }
        }
    }
    proof {
        assert forall|q: usize| #[trigger] frontier@.dom().contains(q) implies frontier@[q]
            <= u32::MAX by {
            assert(before.frontier.dom().contains(q));
        }
    }
    let sources = collect_met(frontier, &crossing.qubits);
    proof {
        lemma_met(frontier@, crossing@.qubits);
        assert forall|k: int| 0 <= k < sources@.len() implies base.nodes.dom().contains(
            #[trigger] sources@[k],
        ) by {
            assert(ends_at(frontier@, met(frontier@, crossing@.qubits)[k]));
            let q = choose|q: usize| #[trigger]
                frontier@.dom().contains(q) && frontier@[q] as u32 == sources@[k];
            assert(before.frontier.dom().contains(q));
            assert(before.graph.nodes.dom().contains(before.frontier[q] as u32));
        }
    }
    let ids = lead_into(sg, &sources, node);
    let mut i: usize = 0;
    while i < crossing.qubits.len()
        invariant
            i <= crossing.qubits.len(),
            frontier@ == moved(before.frontier, own@, crossing@.qubits.take(i as int), node),
        decreases crossing.qubits.len() - i,
    {
        proof {
            let qubits = crossing@.qubits;
            assert(qubits.take(i + 1).drop_last() =~= qubits.take(i as int));
            assert(qubits.take(i + 1).last() == qubits[i as int]);
        }
        if own.contains(crossing.qubits[i]) {
            frontier.insert(crossing.qubits[i], node as usize);
        }
        i += 1;
    }
    proof {
        let after = WalkState { graph: sg@, gates: gate_nodes@, frontier: frontier@ };
        assert(crossing@.qubits.take(i as int) =~= crossing@.qubits);
        assert(key == gate_key(crossing@, direction, virtual_type));
        assert(crossed_as(before, flow, crossing@, node, ids@, after));
        assert(crossed(before, flow, crossing@, after));
        lemma_moved(before.frontier, own@, crossing@.qubits, node);
        assert forall|q: usize| #[trigger] after.frontier.dom().contains(q) implies after.frontier[q]
            <= u32::MAX && after.graph.nodes.dom().contains(after.frontier[q] as u32) by {
            if after.frontier[q] != node {
                assert(before.frontier.dom().contains(q));
                assert(before.graph.nodes.dom().contains(before.frontier[q] as u32));
            }
        }
        assert forall|other: GateKey| #[trigger] after.gates.dom().contains(other) implies
            after.graph.nodes.dom().contains(after.gates[other]) by {
            if other != key {
                assert(before.gates.dom().contains(other));
                assert(before.graph.nodes.dom().contains(before.gates[other]));
            }
        }
        assert(sound(after));
    }
    Ok(())
}

// --- Wiring -------------------------------------------------------------------------------------

/// What wiring one emission's path does to a graph and the conjugation nodes in it, or how far it gets.
pub open spec fn wired(
    before: WalkState,
    flow: Flow,
    crossings: Seq<CrossingModel>,
    qubits: Seq<usize>,
    target: u32,
    graph: GraphModel,
    gates: Map<GateKey, u32>,
) -> bool {
    match first_refused(flow, crossings, 0) {
        None => exists|walked: WalkState, ids: Seq<u32>|
            journeyed(before, flow, crossings, walked) && #[trigger] arrived(
                walked,
                qubits,
                target,
                ids,
                graph,
            ) && gates == walked.gates,
        Some(k) => exists|walked: WalkState| #[trigger]
            journeyed(before, flow, crossings.take(k), walked) && graph == walked.graph && gates
                == walked.gates,
    }
}

/// The refusal of the first gate on the path that has no rule.
pub open spec fn rule_refusal(flow: Flow, crossings: Seq<CrossingModel>) -> Option<ErrorModel> {
    match first_refused(flow, crossings, 0) {
        None => None,
        Some(k) => Some(
            ErrorModel::NoPropagationRule {
                virtual_type: flow.virtual_type,
                gate: crossings[k].gate,
            },
        ),
    }
}

// --- What wiring is for ----------------------------------------------------------------------------

/// Edges that join a graph are in it, and what was there stays.
proof fn lemma_edges_join(graph: GraphModel, ids: Seq<u32>, edges: Seq<(u32, u32, Edge)>)
    requires
        ids.len() == edges.len(),
        new_to(graph.edges.dom(), ids),
    ensures
        with_edges(graph, ids, edges).nodes == graph.nodes,
        forall|id: u32| #[trigger]
            graph.edges.dom().contains(id) ==> with_edges(graph, ids, edges).edges.dom().contains(id)
                && with_edges(graph, ids, edges).edges[id] == graph.edges[id],
        forall|k: int|
            0 <= k < ids.len() ==> with_edges(graph, ids, edges).edges.dom().contains(
                #[trigger] ids[k],
            ) && with_edges(graph, ids, edges).edges[ids[k]] == edges[k],
    decreases edges.len(),
{
    if edges.len() > 0 {
        let head = ids.drop_last();
        let front = edges.drop_last();
        let last = ids.len() - 1;
        assert(new_to(graph.edges.dom(), head)) by {
            assert forall|i: int| 0 <= i < head.len() implies !graph.edges.dom().contains(
                #[trigger] head[i],
            ) by {
                assert(ids[i] == head[i]);
            }
            assert(head.no_duplicates()) by {
                assert forall|i: int, j: int|
                    0 <= i < head.len() && 0 <= j < head.len() && i != j implies head[i] != head[j] by {
                    assert(ids[i] != ids[j]);
                }
            }
        }
        lemma_edges_join(graph, head, front);
        let after = with_edges(graph, ids, edges);
        assert(!graph.edges.dom().contains(ids[last]));
        assert forall|id: u32| #[trigger] graph.edges.dom().contains(id) implies after.edges.dom().contains(
            id,
        ) && after.edges[id] == graph.edges[id] by {
            assert(id != ids[last]);
        }
        assert forall|k: int| 0 <= k < ids.len() implies after.edges.dom().contains(#[trigger] ids[k])
            && after.edges[ids[k]] == edges[k] by {
            if k < last {
                assert(head[k] == ids[k]);
                assert(ids[k] != ids[last]);
                assert(front[k] == edges[k]);
            }
        }
    }
}

proof fn lemma_met_has(frontier: Map<usize, usize>, qubits: Seq<usize>, qubit: usize)
    requires
        qubits.contains(qubit),
        frontier.dom().contains(qubit),
    ensures
        met(frontier, qubits).contains(frontier[qubit] as u32),
    decreases qubits.len(),
{
    let front = qubits.drop_last();
    let before = met(frontier, front);
    let after = met(frontier, qubits);
    let k = qubits.index_of(qubit);
    assert(qubits[k] == qubit);
    if k < front.len() {
        assert(front[k] == qubit);
        lemma_met_has(frontier, front, qubit);
        let m = before.index_of(frontier[qubit] as u32);
        assert(before[m] == frontier[qubit] as u32);
        assert(after[m] == before[m]);
    } else if !before.contains(frontier[qubit] as u32) {
        assert(after[before.len() as int] == frontier[qubit] as u32);
    }
}

/// Edges from all nodes some wires end at lead from each of them.
proof fn lemma_led_from(
    graph: GraphModel,
    frontier: Map<usize, usize>,
    qubits: Seq<usize>,
    target: u32,
    ids: Seq<u32>,
    qubit: usize,
)
    requires
        new_to(graph.edges.dom(), ids),
        ids.len() == met(frontier, qubits).len(),
        qubits.contains(qubit),
        frontier.dom().contains(qubit),
    ensures
        leads(
            with_edges(graph, ids, edges_into(met(frontier, qubits), target)),
            frontier[qubit] as u32,
            target,
        ),
{
    let sources = met(frontier, qubits);
    let edges = edges_into(sources, target);
    lemma_edges_join(graph, ids, edges);
    lemma_met_has(frontier, qubits, qubit);
    let k = sources.index_of(frontier[qubit] as u32);
    assert(sources[k] == frontier[qubit] as u32);
    assert(edges[k].0 == sources[k] && edges[k].1 == target);
    assert(with_edges(graph, ids, edges).edges.dom().contains(ids[k]));
}

/// Whether a walk has all that another had.
spec fn keeps(before: WalkState, after: WalkState) -> bool {
    &&& forall|node: u32| #[trigger]
        before.graph.nodes.dom().contains(node) ==> after.graph.nodes.dom().contains(node)
            && after.graph.nodes[node] == before.graph.nodes[node]
    &&& forall|id: u32| #[trigger]
        before.graph.edges.dom().contains(id) ==> after.graph.edges.dom().contains(id)
            && after.graph.edges[id] == before.graph.edges[id]
    &&& forall|key: GateKey| #[trigger]
        before.gates.dom().contains(key) ==> after.gates.dom().contains(key) && after.gates[key]
            == before.gates[key]
}

proof fn lemma_keeps_leads(before: WalkState, after: WalkState, from: u32, to: u32)
    requires
        keeps(before, after),
        leads(before.graph, from, to),
    ensures
        leads(after.graph, from, to),
{
    let id = choose|id: u32| #[trigger]
        before.graph.edges.dom().contains(id) && before.graph.edges[id].0 == from
            && before.graph.edges[id].1 == to;
    assert(after.graph.edges.dom().contains(id));
}

/// Crossing on the path leads to the conjugation from wherever its wires ended.
proof fn lemma_crossed_leads(before: WalkState, flow: Flow, crossing: CrossingModel, after: WalkState)
    requires
        crossed(before, flow, crossing, after),
    ensures
        keeps(before, after),
        flow.touched(crossing) ==> ({
            let key = gate_key(crossing, flow.direction, flow.virtual_type);
            &&& after.gates.dom().contains(key)
            &&& !before.gates.dom().contains(key) ==> after.graph.nodes.dom().contains(
                after.gates[key],
            ) && after.graph.nodes[after.gates[key]] == conjugation(crossing, flow.direction)
            &&& forall|qubit: usize| #[trigger]
                before.frontier.dom().contains(qubit) && crossing.qubits.contains(qubit) ==> leads(
                    after.graph,
                    before.frontier[qubit] as u32,
                    after.gates[key],
                )
        }),
{
    if flow.touched(crossing) {
        let key = gate_key(crossing, flow.direction, flow.virtual_type);
        let (index, ids) = choose|index: u32, ids: Seq<u32>| #[trigger]
            crossed_as(before, flow, crossing, index, ids, after);
        let there = before.gates.dom().contains(key);
        let node = if there {
            before.gates[key]
        } else {
            index
        };
        let graph = if there {
            before.graph
        } else {
            with_node(before.graph, index, conjugation(crossing, flow.direction))
        };
        assert(graph.edges == before.graph.edges);
        let sources = met(before.frontier, crossing.qubits);
        lemma_edges_join(graph, ids, edges_into(sources, node));
        assert(after.gates[key] == node);
        assert forall|qubit: usize| #[trigger]
            before.frontier.dom().contains(qubit) && crossing.qubits.contains(qubit) implies leads(
            after.graph,
            before.frontier[qubit] as u32,
            after.gates[key],
        ) by {
            lemma_led_from(graph, before.frontier, crossing.qubits, node, ids, qubit);
        }
    }
}

/// What holds of the way an emission was led so far: from gate to gate on every one of its wires, each gate a
/// conjugation by that gate the way the emission goes.
spec fn led_along(
    source: u32,
    known: Map<GateKey, u32>,
    flow: Flow,
    crossings: Seq<CrossingModel>,
    after: WalkState,
) -> bool {
    &&& forall|k: int, qubit: usize|
        #![trigger crossings[k].qubits.contains(qubit)]
        0 <= k < crossings.len() && flow.own.contains(qubit) && crossings[k].qubits.contains(qubit)
            ==> leads(
            after.graph,
            end_node(source, after.gates, ends_after(flow, crossings.take(k))[qubit]),
            after.gates[gate_key(crossings[k], flow.direction, flow.virtual_type)],
        )
    &&& forall|k: int|
        0 <= k < crossings.len() && flow.touched(#[trigger] crossings[k]) ==> {
            let key = gate_key(crossings[k], flow.direction, flow.virtual_type);
            &&& after.gates.dom().contains(key)
            &&& !known.dom().contains(key) ==> after.graph.nodes.dom().contains(after.gates[key])
                && after.graph.nodes[after.gates[key]] == conjugation(crossings[k], flow.direction)
        }
}

proof fn lemma_led_along(
    source: u32,
    before: WalkState,
    flow: Flow,
    crossings: Seq<CrossingModel>,
    after: WalkState,
)
    requires
        frontier_at(source, before.gates, ends_after(flow, Seq::empty()), before.frontier),
        journeyed(before, flow, crossings, after),
        forall|i: int, j: int|
            0 <= i < j < crossings.len() ==> gate_key(
                #[trigger] crossings[i],
                flow.direction,
                flow.virtual_type,
            ) != gate_key(#[trigger] crossings[j], flow.direction, flow.virtual_type),
    ensures
        keeps(before, after),
        frontier_at(source, after.gates, ends_after(flow, crossings), after.frontier),
        led_along(source, before.gates, flow, crossings, after),
        forall|key: GateKey| #[trigger]
            after.gates.dom().contains(key) ==> before.gates.dom().contains(key) || exists|k: int|
                0 <= k < crossings.len() && key == gate_key(
                    #[trigger] crossings[k],
                    flow.direction,
                    flow.virtual_type,
                ),
    decreases crossings.len(),
{
    if crossings.len() == 0 {
        assert(crossings =~= Seq::<CrossingModel>::empty());
    } else {
        let front = crossings.drop_last();
        let last = crossings.len() - 1;
        let crossing = crossings[last];
        let middle = choose|middle: WalkState|
            journeyed(before, flow, front, middle) && #[trigger] crossed(
                middle,
                flow,
                crossings.last(),
                after,
            );
        assert forall|i: int, j: int| 0 <= i < j < front.len() implies gate_key(
            #[trigger] front[i],
            flow.direction,
            flow.virtual_type,
        ) != gate_key(#[trigger] front[j], flow.direction, flow.virtual_type) by {
            assert(crossings[i] == front[i] && crossings[j] == front[j]);
        }
        lemma_led_along(source, before, flow, front, middle);
        lemma_ends_move(source, middle, flow, crossings, after);
        lemma_crossed_leads(middle, flow, crossing, after);
        let key = gate_key(crossing, flow.direction, flow.virtual_type);
        let ends = ends_after(flow, front);
        assert(ends.dom() =~= flow.own);
        assert(flow.touched(crossing) ==> !middle.gates.dom().contains(key)
            || before.gates.dom().contains(key)) by {
            if middle.gates.dom().contains(key) && !before.gates.dom().contains(key) {
                let k = choose|k: int|
                    0 <= k < front.len() && key == gate_key(
                        #[trigger] front[k],
                        flow.direction,
                        flow.virtual_type,
                    );
                assert(crossings[k] == front[k]);
                assert(gate_key(crossings[k], flow.direction, flow.virtual_type) != gate_key(
                    crossings[last],
                    flow.direction,
                    flow.virtual_type,
                ));
            }
        }
        assert forall|k: int, qubit: usize|
            #![trigger crossings[k].qubits.contains(qubit)]
            0 <= k < crossings.len() && flow.own.contains(qubit) && crossings[k].qubits.contains(
                qubit,
            ) implies leads(
            after.graph,
            end_node(source, after.gates, ends_after(flow, crossings.take(k))[qubit]),
            after.gates[gate_key(crossings[k], flow.direction, flow.virtual_type)],
        ) by {
            if k < last {
                assert(front[k] == crossings[k]);
                assert(front.take(k) =~= crossings.take(k));
                assert(front[k].qubits.contains(qubit));
                let from = end_node(source, middle.gates, ends_after(flow, front.take(k))[qubit]);
                let to = middle.gates[gate_key(front[k], flow.direction, flow.virtual_type)];
                lemma_keeps_leads(middle, after, from, to);
                assert(flow.touched(front[k])) by {
                    let m = front[k].qubits.index_of(qubit);
                    assert(front[k].qubits[m] == qubit);
                }
                lemma_ends_known(source, before, flow, front, middle, k, qubit);
            } else {
                assert(crossings.take(k) =~= front);
                assert(flow.touched(crossing)) by {
                    let m = crossing.qubits.index_of(qubit);
                    assert(crossing.qubits[m] == qubit);
                }
                assert(ends.dom().contains(qubit));
                assert(middle.frontier.dom().contains(qubit));
                assert(middle.frontier[qubit] as u32 == end_node(
                    source,
                    middle.gates,
                    ends[qubit],
                ));
            }
        }
        assert forall|k: int| 0 <= k < crossings.len() && flow.touched(
            #[trigger] crossings[k],
        ) implies ({
            let key = gate_key(crossings[k], flow.direction, flow.virtual_type);
            &&& after.gates.dom().contains(key)
            &&& !before.gates.dom().contains(key) ==> after.graph.nodes.dom().contains(
                after.gates[key],
            ) && after.graph.nodes[after.gates[key]] == conjugation(crossings[k], flow.direction)
        }) by {
            if k < last {
                assert(front[k] == crossings[k]);
            }
        }
        assert forall|other: GateKey| #[trigger] after.gates.dom().contains(other) implies before.gates.dom().contains(
            other,
        ) || exists|k: int|
            0 <= k < crossings.len() && other == gate_key(
                #[trigger] crossings[k],
                flow.direction,
                flow.virtual_type,
            ) by {
            if !before.gates.dom().contains(other) {
                if middle.gates.dom().contains(other) {
                    let k = choose|k: int|
                        0 <= k < front.len() && other == gate_key(
                            #[trigger] front[k],
                            flow.direction,
                            flow.virtual_type,
                        );
                    assert(crossings[k] == front[k]);
                } else {
                    assert(other == gate_key(crossings[last], flow.direction, flow.virtual_type));
                }
            }
        }
    }
}

/// What a wire ended at on the way is known by its node.
proof fn lemma_ends_known(
    source: u32,
    before: WalkState,
    flow: Flow,
    crossings: Seq<CrossingModel>,
    after: WalkState,
    k: int,
    qubit: usize,
)
    requires
        led_along(source, before.gates, flow, crossings, after),
        0 <= k <= crossings.len(),
        flow.own.contains(qubit),
    ensures
        ends_after(flow, crossings.take(k))[qubit] matches Some(key) ==> after.gates.dom().contains(
            key,
        ),
    decreases k,
{
    if k > 0 {
        let some = crossings.take(k);
        assert(some.drop_last() =~= crossings.take(k - 1));
        assert(some.last() == crossings[k - 1]);
        lemma_ends_known(source, before, flow, crossings, after, k - 1, qubit);
        if crossings[k - 1].qubits.contains(qubit) {
            let m = crossings[k - 1].qubits.index_of(qubit);
            assert(crossings[k - 1].qubits[m] == qubit);
            assert(flow.touched(crossings[k - 1]));
        }
    }
}

/// On every one of its wires an emission is led from where the wire ended to each gate, and to the collector.
proof fn lemma_emission_is_led(
    graph: GraphModel,
    gates: Map<GateKey, u32>,
    qubits: Seq<usize>,
    source: u32,
    flow: Flow,
    crossings: Seq<CrossingModel>,
    target: u32,
    after: GraphModel,
    known: Map<GateKey, u32>,
)
    requires
        wired(
            setting_out(graph, gates, qubits, source),
            flow,
            crossings,
            qubits,
            target,
            after,
            known,
        ),
        first_refused(flow, crossings, 0) is None,
        flow.own == qubits.to_set(),
        forall|i: int, j: int|
            0 <= i < j < crossings.len() ==> gate_key(
                #[trigger] crossings[i],
                flow.direction,
                flow.virtual_type,
            ) != gate_key(#[trigger] crossings[j], flow.direction, flow.virtual_type),
    ensures
        forall|k: int, qubit: usize|
            #![trigger crossings[k].qubits.contains(qubit)]
            0 <= k < crossings.len() && qubits.contains(qubit) && crossings[k].qubits.contains(qubit)
                ==> leads(
                after,
                end_node(source, known, ends_after(flow, crossings.take(k))[qubit]),
                known[gate_key(crossings[k], flow.direction, flow.virtual_type)],
            ),
        forall|qubit: usize| #[trigger]
            qubits.contains(qubit) ==> leads(
                after,
                end_node(source, known, ends_after(flow, crossings)[qubit]),
                target,
            ),
        forall|k: int|
            0 <= k < crossings.len() && flow.touched(#[trigger] crossings[k]) ==> {
                let key = gate_key(crossings[k], flow.direction, flow.virtual_type);
                &&& known.dom().contains(key)
                &&& !gates.dom().contains(key) ==> after.nodes.dom().contains(known[key])
                    && after.nodes[known[key]] == conjugation(crossings[k], flow.direction)
            },
{
    let before = setting_out(graph, gates, qubits, source);
    let (walked, ids) = choose|walked: WalkState, ids: Seq<u32>|
        journeyed(before, flow, crossings, walked) && #[trigger] arrived(
            walked,
            qubits,
            target,
            ids,
            after,
        ) && known == walked.gates;
    let ends = ends_after(flow, Seq::empty());
    assert(before.frontier.dom() =~= ends.dom());
    assert(frontier_at(source, before.gates, ends, before.frontier));
    lemma_led_along(source, before, flow, crossings, walked);
    let sources = met(walked.frontier, qubits);
    lemma_edges_join(walked.graph, ids, edges_into(sources, target));
    let done = WalkState { graph: after, gates: known, frontier: walked.frontier };
    assert(keeps(walked, done));
    assert forall|k: int, qubit: usize|
        #![trigger crossings[k].qubits.contains(qubit)]
        0 <= k < crossings.len() && qubits.contains(qubit) && crossings[k].qubits.contains(
            qubit,
        ) implies leads(
        after,
        end_node(source, known, ends_after(flow, crossings.take(k))[qubit]),
        known[gate_key(crossings[k], flow.direction, flow.virtual_type)],
    ) by {
        assert(flow.own.contains(qubit));
        lemma_keeps_leads(
            walked,
            done,
            end_node(source, known, ends_after(flow, crossings.take(k))[qubit]),
            known[gate_key(crossings[k], flow.direction, flow.virtual_type)],
        );
    }
    assert forall|qubit: usize| #[trigger] qubits.contains(qubit) implies leads(
        after,
        end_node(source, known, ends_after(flow, crossings)[qubit]),
        target,
    ) by {
        assert(flow.own.contains(qubit));
        let last = ends_after(flow, crossings);
        assert(last.dom().contains(qubit));
        assert(walked.frontier.dom().contains(qubit));
        lemma_led_from(walked.graph, walked.frontier, qubits, target, ids, qubit);
        assert(walked.frontier[qubit] as u32 == end_node(source, known, last[qubit]));
    }
}

/// Whether no gate strictly between two places on a way is on a wire.
pub open spec fn nothing_between(
    crossings: Seq<CrossingModel>,
    qubit: usize,
    from: int,
    to: int,
) -> bool {
    forall|i: int| from < i < to ==> !(#[trigger] crossings[i]).qubits.contains(qubit)
}

/// A wire ends at the last gate on it, or at the emission if there is none.
proof fn lemma_ends_at_the_last(
    flow: Flow,
    crossings: Seq<CrossingModel>,
    qubit: usize,
    from: int,
    to: int,
)
    requires
        flow.own.contains(qubit),
        -1 <= from < to <= crossings.len(),
        nothing_between(crossings, qubit, from, to),
        from >= 0 ==> crossings[from].qubits.contains(qubit),
    ensures
        ends_after(flow, crossings.take(to))[qubit] == if from >= 0 {
            Some(gate_key(crossings[from], flow.direction, flow.virtual_type))
        } else {
            None
        },
    decreases to,
{
    if to > 0 {
        let some = crossings.take(to);
        assert(some.drop_last() =~= crossings.take(to - 1));
        assert(some.last() == crossings[to - 1]);
        if from < to - 1 {
            assert(!crossings[to - 1].qubits.contains(qubit));
            lemma_ends_at_the_last(flow, crossings, qubit, from, to - 1);
        }
    } else {
        assert(crossings.take(to) =~= Seq::<CrossingModel>::empty());
    }
}

/// Wiring an emission leads it, on every one of its wires, from gate to gate on its way and on to its collector: from
/// the emission to the first gate on the wire, from each to the next, and from the last to the collector, or from
/// the emission to the collector where no gate is on the wire. Every conjugation made is by that gate, on its
/// qubits, and the way the emission goes.
pub proof fn lemma_emission_is_led_to_its_collector(
    graph: GraphModel,
    gates: Map<GateKey, u32>,
    qubits: Seq<usize>,
    source: u32,
    flow: Flow,
    crossings: Seq<CrossingModel>,
    target: u32,
    after: GraphModel,
    known: Map<GateKey, u32>,
    qubit: usize,
    from: int,
    to: int,
)
    requires
        wired(
            setting_out(graph, gates, qubits, source),
            flow,
            crossings,
            qubits,
            target,
            after,
            known,
        ),
        first_refused(flow, crossings, 0) is None,
        flow.own == qubits.to_set(),
        forall|i: int, j: int|
            0 <= i < j < crossings.len() ==> gate_key(
                #[trigger] crossings[i],
                flow.direction,
                flow.virtual_type,
            ) != gate_key(#[trigger] crossings[j], flow.direction, flow.virtual_type),
        qubits.contains(qubit),
        -1 <= from < to <= crossings.len(),
        nothing_between(crossings, qubit, from, to),
        from >= 0 ==> crossings[from].qubits.contains(qubit),
        to < crossings.len() ==> crossings[to].qubits.contains(qubit),
    ensures
        ({
            let one = if from >= 0 {
                known[gate_key(crossings[from], flow.direction, flow.virtual_type)]
            } else {
                source
            };
            let other = if to < crossings.len() {
                known[gate_key(crossings[to], flow.direction, flow.virtual_type)]
            } else {
                target
            };
            leads(after, one, other)
        }),
        to < crossings.len() ==> ({
            let key = gate_key(crossings[to], flow.direction, flow.virtual_type);
            &&& known.dom().contains(key)
            &&& !gates.dom().contains(key) ==> after.nodes.dom().contains(known[key])
                && after.nodes[known[key]] == (NodeModel {
                qubits: crossings[to].qubits,
                partition: whole_parts(crossings[to].qubits.len()),
                kind: NodeKindModel::Propagate(
                    Propagate { gate: crossings[to].gate, direction: flow.direction },
                ),
            })
        }),
{
    lemma_emission_is_led(graph, gates, qubits, source, flow, crossings, target, after, known);
    assert(flow.own.contains(qubit));
    lemma_ends_at_the_last(flow, crossings, qubit, from, to);
    if to < crossings.len() {
        assert(crossings[to].qubits.contains(qubit));
        assert(flow.touched(crossings[to])) by {
            let m = crossings[to].qubits.index_of(qubit);
            assert(crossings[to].qubits[m] == qubit);
        }
    } else {
        assert(crossings.take(to) =~= crossings);
    }
}

/// Getting past one more gate takes a node more if it is on the path and none is there yet, and no more than
/// there is room for.
proof fn lemma_walk_on(known: Set<GateKey>, flow: Flow, crossings: Seq<CrossingModel>, k: int)
    requires
        0 <= k < crossings.len(),
        first_refused(flow, crossings, 0) == first_refused(flow, crossings, k),
        !flow.refused(crossings[k]),
    ensures
        ({
            let key = gate_key(crossings[k], flow.direction, flow.virtual_type);
            let few = conjugations(flow, crossings.take(k));
            let more = conjugations(flow, crossings.take(k + 1));
            let all = conjugations(flow, passed(flow, crossings));
            &&& more == if flow.touched(crossings[k]) {
                few.insert(key)
            } else {
                few
            }
            &&& more.difference(known).len() == few.difference(known).len() + (if flow.touched(
                crossings[k],
            ) && !known.union(few).contains(key) {
                1int
            } else {
                0int
            })
            &&& more.difference(known).len() <= all.difference(known).len()
            &&& edges_between(flow, crossings.take(k + 1)) == edges_between(
                flow,
                crossings.take(k),
            ) + ends_on(ends_after(flow, crossings.take(k)), crossings[k].qubits).len()
            &&& edges_between(flow, crossings.take(k + 1)) <= edges_between(
                flow,
                passed(flow, crossings),
            )
        }),
{
    let key = gate_key(crossings[k], flow.direction, flow.virtual_type);
    let few = conjugations(flow, crossings.take(k));
    let more = conjugations(flow, crossings.take(k + 1));
    let way = passed(flow, crossings);
    assert(crossings.take(k + 1).drop_last() =~= crossings.take(k));
    assert(crossings.take(k + 1).last() == crossings[k]);
    lemma_first_refused(flow, crossings, k + 1);
    lemma_needs_take(flow, crossings, k);
    lemma_needs_take(flow, crossings, k + 1);
    assert(way.take(k + 1) =~= crossings.take(k + 1));
    lemma_needs_take(flow, way, k + 1);
    let all = conjugations(flow, way);
    vstd::set_lib::lemma_len_subset(more.difference(known), all.difference(known));
    if flow.touched(crossings[k]) && !known.union(few).contains(key) {
        assert(more.difference(known) =~= few.difference(known).insert(key));
    } else {
        assert(more.difference(known) =~= few.difference(known));
    }
}

proof fn lemma_extends_twice(first: GraphModel, second: GraphModel, third: GraphModel)
    requires
        extends(first, second),
        extends(second, third),
    ensures
        extends(first, third),
{
    assert forall|node: u32| #[trigger] first.nodes.dom().contains(node) implies
        third.nodes.dom().contains(node) && third.nodes[node] == first.nodes[node] by {
        assert(second.nodes.dom().contains(node));
    }
}

/// Wire one emission's path: every gate between it and its collector, chained per qubit.
pub(crate) fn wire(
    items: &Vec<Item>,
    collectors: &Vec<Collector>,
    sg: &mut SamplingGraph,
    gate_nodes: &mut GateNodes,
    from: usize,
    direction: Direction,
    virtual_type: VirtualType,
    qubits: &Vec<usize>,
    source: u32,
    target_index: usize,
    target_node: u32,
) -> (result: Result<(), SamplexError>)
    requires
        read(items@, collectors@).wf(),
        direction is Left ==> from <= items@.len(),
        direction is Right ==> from < usize::MAX,
        old(sg)@.wf(),
        names_nodes(old(sg)@, old(gate_nodes)@),
        old(sg)@.nodes.dom().contains(source),
        old(sg)@.nodes.dom().contains(target_node),
        ({
            let crossings = crossings_from(
                read(items@, collectors@),
                beyond(from as int, direction),
                direction,
                target_index,
            );
            let flow = Flow { direction, virtual_type, own: qubits@.to_set() };
            room_for_walk(old(sg)@, old(gate_nodes)@, flow, crossings, qubits@)
        }),
    ensures
        ({
            let crossings = crossings_from(
                read(items@, collectors@),
                beyond(from as int, direction),
                direction,
                target_index,
            );
            let flow = Flow { direction, virtual_type, own: qubits@.to_set() };
            let before = setting_out(old(sg)@, old(gate_nodes)@, qubits@, source);
            &&& final(sg)@.wf()
            &&& names_nodes(final(sg)@, final(gate_nodes)@)
            &&& extends(old(sg)@, final(sg)@)
            &&& made_for_walk(
                old(sg)@,
                old(gate_nodes)@,
                flow,
                crossings,
                qubits@,
                final(sg)@,
                final(gate_nodes)@,
            )
            &&& wired(
                before,
                flow,
                crossings,
                qubits@,
                target_node,
                final(sg)@,
                final(gate_nodes)@,
            )
            &&& match result {
                Ok(_) => rule_refusal(flow, crossings) is None,
                Err(error) => rule_refusal(flow, crossings) == Some(error@),
            }
        }),
{
    let ghost given = sg@;
    let ghost flow = Flow { direction, virtual_type, own: qubits@.to_set() };
    let ghost before = setting_out(sg@, gate_nodes@, qubits@, source);
    let list = list_crossings(items, collectors, from, direction, target_index);
    let ghost crossings = crossings_model(list@);
    let mut frontier = IndexMap::new();
    let mut own = IndexSet::new();
    let mut i: usize = 0;
    while i < qubits.len()
        invariant
            i <= qubits.len(),
            forall|q: usize| #[trigger]
                own@.contains(q) <==> qubits@.take(i as int).contains(q),
            forall|q: usize| #[trigger]
                frontier@.dom().contains(q) <==> qubits@.take(i as int).contains(q),
            forall|q: usize| #[trigger]
                frontier@.dom().contains(q) ==> frontier@[q] == source as usize,
        decreases qubits.len() - i,
    {
        let ghost done = qubits@.take(i as int);
        let ghost next = qubits@.take(i + 1);
        let ghost held = own@;
        let ghost ends = frontier@;
        own.insert(qubits[i]);
        frontier.insert(qubits[i], source as usize);
        proof {
            assert(next =~= done.push(qubits@[i as int]));
            assert forall|q: usize| next.contains(q) <==> done.contains(q) || q == qubits@[i as int] by {
                assert(next[i as int] == qubits@[i as int]);
                if done.contains(q) {
                    assert(next[done.index_of(q)] == q);
                }
                if next.contains(q) && q != qubits@[i as int] {
                    assert(done[next.index_of(q)] == q);
                }
            }
            assert forall|q: usize| #[trigger] own@.contains(q) <==> next.contains(q) by {
                assert(held.contains(q) <==> done.contains(q));
            }
            assert forall|q: usize| #[trigger] frontier@.dom().contains(q) <==> next.contains(q) by {
                assert(ends.dom().contains(q) <==> done.contains(q));
            }
            assert forall|q: usize| #[trigger] frontier@.dom().contains(q) implies frontier@[q]
                == source as usize by {
                if q != qubits@[i as int] {
                    assert(ends.dom().contains(q));
                }
            }
        }
        i += 1;
    }
    proof {
        assert(qubits@.take(i as int) =~= qubits@);
        assert(own@ =~= qubits@.to_set());
        assert(frontier@ =~= before.frontier);
        assert(crossings.take(0) =~= Seq::<CrossingModel>::empty());
        let state = WalkState { graph: sg@, gates: gate_nodes@, frontier: frontier@ };
        assert(state =~= before);
        assert(sound(before));
        assert(journeyed(before, flow, crossings.take(0), before));
        assert(gate_nodes@.dom() =~= before.gates.dom().union(
            conjugations(flow, crossings.take(0)),
        ));
        assert(ends_after(flow, crossings.take(0)).dom() =~= frontier@.dom());
        assert(conjugations(flow, crossings.take(0)).difference(before.gates.dom()) =~= Set::<
            GateKey,
        >::empty());
    }
    let mut k: usize = 0;
    while k < list.len()
        invariant
            k <= list.len(),
            crossings == crossings_model(list@),
            flow == (Flow { direction, virtual_type, own: own@ }),
            given == before.graph,
            given.nodes.dom().contains(target_node),
            extends(given, sg@),
            sound(WalkState { graph: sg@, gates: gate_nodes@, frontier: frontier@ }),
            journeyed(
                before,
                flow,
                crossings.take(k as int),
                WalkState { graph: sg@, gates: gate_nodes@, frontier: frontier@ },
            ),
            first_refused(flow, crossings, 0) == first_refused(flow, crossings, k as int),
            room_for_walk(given, before.gates, flow, crossings, qubits@),
            frontier_at(source, gate_nodes@, ends_after(flow, crossings.take(k as int)), frontier@),
            gate_nodes@.dom() == before.gates.dom().union(
                conjugations(flow, crossings.take(k as int)),
            ),
            sg@.nodes.dom().len() == given.nodes.dom().len() + conjugations(
                flow,
                crossings.take(k as int),
            ).difference(before.gates.dom()).len(),
            sg@.edges.dom().len() <= given.edges.dom().len() + edges_between(
                flow,
                crossings.take(k as int),
            ),
            // restated for the exits inside the loop
            crossings == crossings_from(
                read(items@, collectors@),
                beyond(from as int, direction),
                direction,
                target_index,
            ),
            given == old(sg)@,
            before == setting_out(old(sg)@, old(gate_nodes)@, qubits@, source),
            flow == (Flow { direction, virtual_type, own: qubits@.to_set() }),
        decreases list.len() - k,
    {
        let ghost middle = WalkState { graph: sg@, gates: gate_nodes@, frontier: frontier@ };
        let ghost done = crossings.take(k as int);
        let ghost next = crossings.take(k + 1);
        proof {
            assert(next.drop_last() =~= done);
            assert(next.last() == list@[k as int]@);
            assert(crossings[k as int] == list@[k as int]@);
            lemma_needs_take(flow, crossings, k + 1);
            lemma_needs_take(flow, next, k as int);
            assert(next.take(k as int) =~= done);
            lemma_met_ends(
                source,
                gate_nodes@,
                ends_after(flow, done),
                frontier@,
                crossings[k as int].qubits,
            );
            if !flow.refused(crossings[k as int]) {
                lemma_walk_on(
                    before.gates.dom(),
                    flow,
                    crossings,
                    k as int,
                );
            }
        }
        match chain(sg, gate_nodes, &mut frontier, &own, direction, virtual_type, &list[k]) {
            Ok(_) => {},
            Err(error) => {
                proof {
                    let walked = WalkState { graph: sg@, gates: gate_nodes@, frontier: frontier@ };
                    assert(walked == middle);
                    assert(first_refused(flow, crossings, 0) == Some(k as int));
                    assert(passed(flow, crossings) == done);
                    assert(journeyed(before, flow, crossings.take(k as int), walked));
                    lemma_extends_twice(given, middle.graph, walked.graph);
                }
                return Err(error);
            },
        }
        proof {
            let after = WalkState { graph: sg@, gates: gate_nodes@, frontier: frontier@ };
            assert(journeyed(before, flow, done, middle) && crossed(
                middle,
                flow,
                next.last(),
                after,
            ));
            assert(journeyed(before, flow, next, after));
            lemma_ends_move(source, middle, flow, next, after);
            lemma_extends_twice(given, middle.graph, after.graph);
        }
        k += 1;
    }
    let ghost walked = WalkState { graph: sg@, gates: gate_nodes@, frontier: frontier@ };
    assert(crossings.take(k as int) =~= crossings);
    assert(passed(flow, crossings) == crossings);
    proof {
        assert forall|q: usize| #[trigger] frontier@.dom().contains(q) implies frontier@[q]
            <= u32::MAX by {
            assert(walked.frontier.dom().contains(q));
        }
    }
    let ends = collect_met(&frontier, qubits);
    proof {
        lemma_met(frontier@, qubits@);
        lemma_met_ends(source, gate_nodes@, ends_after(flow, crossings), frontier@, qubits@);
        assert forall|e: int| 0 <= e < ends@.len() implies sg@.nodes.dom().contains(
            #[trigger] ends@[e],
        ) by {
            assert(ends_at(frontier@, met(frontier@, qubits@)[e]));
            let q = choose|q: usize| #[trigger]
                frontier@.dom().contains(q) && frontier@[q] as u32 == ends@[e];
            assert(walked.frontier.dom().contains(q));
        }
    }
    let ids = lead_into(sg, &ends, target_node);
    proof {
        assert(arrived(walked, qubits@, target_node, ids@, sg@));
        assert(extends(walked.graph, sg@));
        lemma_extends_twice(given, walked.graph, sg@);
        assert(names_nodes(sg@, gate_nodes@));
    }
    Ok(())
}

// --- The builder --------------------------------------------------------------------------------

/// Writes a [`SamplingGraph`] out of a [`Track`], holding the bookkeeping the walk needs.
///
/// Taking the track by value fixes the one order that matters. Each collector's parameter range is copied
/// into its `Collect` node, so [`Track::attach_param_indices`] has to have run before `new` does, and after
/// `new` there is no track left to join to.
pub struct SamplingGraphBuilder<'a> {
    track: Track,
    table: &'a DistributionTable,
    graph: SamplingGraph,
    /// The sink node per collector.
    collector_nodes: Vec<u32>,
    /// The node per emission, keyed by its position. Most positions are not emissions.
    emission_nodes: IndexMap,
    /// One node per conjugation, created lazily and shared by the emissions for which it is the same
    /// conjugation.
    gate_nodes: GateNodes,
}

/// What a builder holds.
#[verifier::ext_equal]
pub struct BuilderModel {
    pub track: TrackModel,
    pub table: DistributionTableModel,
    pub graph: GraphModel,
    /// The number of the node each collector goes by, in order.
    pub sinks: Seq<u32>,
    /// The number of the node each emission goes by, by its position.
    pub sources: Map<usize, usize>,
    pub gates: Map<GateKey, u32>,
}

impl<'a> View for SamplingGraphBuilder<'a> {
    type V = BuilderModel;

    closed spec fn view(&self) -> BuilderModel {
        BuilderModel {
            track: self.track@,
            table: self.table@,
            graph: self.graph@,
            sinks: self.collector_nodes@,
            sources: self.emission_nodes@,
            gates: self.gate_nodes@,
        }
    }
}

impl BuilderModel {
    /// Whether everything a builder refers to is in its graph.
    pub open spec fn wf(self) -> bool {
        &&& self.graph.wf()
        &&& self.track.wf()
        &&& self.track.travels()
        &&& names_nodes(self.graph, self.gates)
        &&& self.sinks.len() == self.track.collectors.len()
        &&& forall|c: int|
            0 <= c < self.sinks.len() ==> self.graph.nodes.dom().contains(#[trigger] self.sinks[c])
        &&& forall|p: usize| #[trigger]
            self.sources.dom().contains(p) ==> self.sources[p] <= u32::MAX
                && self.graph.nodes.dom().contains(self.sources[p] as u32)
    }
}

/// A graph with nothing in it.
pub open spec fn nothing() -> GraphModel {
    GraphModel {
        nodes: Map::empty(),
        edges: Map::empty(),
        outgoing: Map::empty(),
        incoming: Map::empty(),
    }
}

/// A graph once nodes have joined it, one after another.
pub open spec fn with_nodes(graph: GraphModel, ids: Seq<u32>, nodes: Seq<NodeModel>) -> GraphModel
    decreases nodes.len(),
{
    if nodes.len() == 0 || ids.len() != nodes.len() {
        graph
    } else {
        with_node(
            with_nodes(graph, ids.drop_last(), nodes.drop_last()),
            ids.last(),
            nodes.last(),
        )
    }
}

/// The node a collector becomes.
pub open spec fn sink_node(collector: FlatCollector) -> NodeModel {
    NodeModel {
        qubits: collector.qubits,
        partition: collector.partition,
        kind: NodeKindModel::Collect(
            CollectorModel {
                synthesizer: collector.synthesizer,
                param_indices: collector.param_indices,
                steps: collector.steps,
            },
        ),
    }
}

/// The nodes collectors become, one by one.
pub open spec fn sink_nodes(collectors: Seq<FlatCollector>) -> Seq<NodeModel> {
    collectors.map_values(|collector: FlatCollector| sink_node(collector))
}

/// The node a position becomes by itself, if it becomes one.
pub open spec fn item_node(item: ItemModel, table: DistributionTableModel) -> Option<NodeModel> {
    match item {
        ItemModel::Emission(emission, qubits) => Some(
            NodeModel {
                qubits,
                partition: emission.partition,
                kind: NodeKindModel::Emission(
                    EmissionModel {
                        key: emission.parts[0].dist,
                        entry: table.entries[emission.parts[0].dist.0 as int],
                        direction: emission.direction->0,
                        virtual_type: emission.group_in(table),
                    },
                ),
            },
        ),
        ItemModel::Measure(qubits, clbits) => Some(
            NodeModel {
                qubits,
                partition: singleton_parts(qubits.len()),
                kind: NodeKindModel::Measure(clbits),
            },
        ),
        ItemModel::Reset(qubits) => Some(
            NodeModel {
                qubits,
                partition: singleton_parts(qubits.len()),
                kind: NodeKindModel::Reset,
            },
        ),
        _ => None,
    }
}

/// The first position, from one on, whose emission draws from what is not in the table.
pub open spec fn first_missing(
    track: TrackModel,
    table: DistributionTableModel,
    from: int,
) -> Option<int>
    decreases track.items.len() - from,
{
    if from < 0 || from >= track.items.len() {
        None
    } else {
        match track.items[from] {
            ItemModel::Emission(emission, _) if !emission.resolves_in(table) => Some(from),
            _ => first_missing(track, table, from + 1),
        }
    }
}

/// The refusal of the first emission that draws from what is not in the table.
pub open spec fn entry_refusal(track: TrackModel, table: DistributionTableModel) -> Option<
    ErrorModel,
> {
    match first_missing(track, table, 0) {
        Some(p) => Some(
            ErrorModel::MissingTableEntry {
                dist: track.items[p]->Emission_0.parts[0].dist,
            },
        ),
        None => None,
    }
}

/// Whether a builder is another that gave a position its own node, under a number not in use.
pub open spec fn placed_as(before: BuilderModel, position: int, index: u32, after: BuilderModel) -> bool {
    &&& item_node(before.track.items[position], before.table) is Some
    &&& !before.graph.nodes.dom().contains(index)
    &&& after == (BuilderModel {
        graph: with_node(
            before.graph,
            index,
            item_node(before.track.items[position], before.table)->0,
        ),
        sources: if before.track.items[position] is Emission {
            before.sources.insert(position as usize, index as usize)
        } else {
            before.sources
        },
        ..before
    })
}

/// Whether a builder is another that gave a position its own node, if it becomes one.
pub open spec fn placed(before: BuilderModel, position: int, after: BuilderModel) -> bool {
    if item_node(before.track.items[position], before.table) is Some {
        exists|index: u32| #[trigger] placed_as(before, position, index, after)
    } else {
        after == before
    }
}

/// Whether a builder is another that gave the first positions their own nodes, one after another.
pub open spec fn all_placed(before: BuilderModel, count: nat, after: BuilderModel) -> bool
    decreases count,
{
    if count == 0 {
        after == before
    } else {
        exists|middle: BuilderModel|
            all_placed(before, (count - 1) as nat, middle) && #[trigger] placed(
                middle,
                count - 1,
                after,
            )
    }
}

/// The collector the emission at a position is headed for.
pub open spec fn target_of(track: TrackModel, table: DistributionTableModel, position: int) -> Option<
    usize,
> {
    match track.items[position] {
        ItemModel::Emission(emission, qubits) => resolution(
            track,
            beyond(position, emission.direction->0),
            emission.direction->0,
            emission,
            qubits,
            table,
        ),
        _ => None,
    }
}

/// What the emission at a position carries on its walk.
pub open spec fn flow_of(track: TrackModel, table: DistributionTableModel, position: int) -> Flow {
    let emission = track.items[position]->Emission_0;
    Flow {
        direction: emission.direction->0,
        virtual_type: emission.group_in(table),
        own: track.items[position]->Emission_1.to_set(),
    }
}

/// The gates between an emission and a collector.
pub open spec fn path_to(track: TrackModel, position: int, target: usize) -> Seq<CrossingModel> {
    let direction = (track.items[position]->Emission_0).direction->0;
    crossings_from(track, beyond(position, direction), direction, target)
}

/// Whether a builder is another that wired the emission at a position to a collector, as far as that goes.
pub open spec fn propagated(
    before: BuilderModel,
    position: int,
    target: usize,
    after: BuilderModel,
) -> bool {
    let qubits = before.track.items[position]->Emission_1;
    &&& after == (BuilderModel { graph: after.graph, gates: after.gates, ..before })
    &&& wired(
        setting_out(
            before.graph,
            before.gates,
            qubits,
            before.sources[position as usize] as u32,
        ),
        flow_of(before.track, before.table, position),
        path_to(before.track, position, target),
        qubits,
        before.sinks[target as int],
        after.graph,
        after.gates,
    )
}

/// Whether a builder is another that dealt with a position: an emission was wired to the collector it is
/// headed for.
pub open spec fn dealt_with(before: BuilderModel, position: int, after: BuilderModel) -> bool {
    match target_of(before.track, before.table, position) {
        Some(target) => propagated(before, position, target, after),
        None => after == before,
    }
}

/// Whether a builder is another that dealt with the first positions, one after another.
pub open spec fn all_dealt_with(before: BuilderModel, count: nat, after: BuilderModel) -> bool
    decreases count,
{
    if count == 0 {
        after == before
    } else {
        exists|middle: BuilderModel|
            all_dealt_with(before, (count - 1) as nat, middle) && #[trigger] dealt_with(
                middle,
                count - 1,
                after,
            )
    }
}

/// The refusal of an emission no collector ahead can take, or else of a gate on its path that has no rule.
pub open spec fn refusal_at(track: TrackModel, table: DistributionTableModel, position: int) -> Option<
    ErrorModel,
> {
    match track.items[position] {
        ItemModel::Emission(emission, qubits) => match target_of(track, table, position) {
            Some(target) => rule_refusal(
                flow_of(track, table, position),
                path_to(track, position, target),
            ),
            None => Some(
                ErrorModel::EmissionWithoutCollector { qubits, direction: emission.direction->0 },
            ),
        },
        _ => None,
    }
}

/// The first refusal, from a position on.
pub open spec fn first_refusal(
    track: TrackModel,
    table: DistributionTableModel,
    from: int,
) -> Option<ErrorModel>
    decreases track.items.len() - from,
{
    if from < 0 || from >= track.items.len() {
        None
    } else {
        match refusal_at(track, table, from) {
            Some(refusal) => Some(refusal),
            None => first_refusal(track, table, from + 1),
        }
    }
}

/// Why a graph cannot be written out of a track: an emission drawing from what is not in the table, else
/// the first refusal by position.
pub open spec fn build_refusal(track: TrackModel, table: DistributionTableModel) -> Option<ErrorModel> {
    match entry_refusal(track, table) {
        Some(refusal) => Some(refusal),
        None => first_refusal(track, table, 0),
    }
}

/// How many positions come before the first whose emission draws from what is not in the table.
pub open spec fn positions_known(track: TrackModel, table: DistributionTableModel) -> nat {
    match first_missing(track, table, 0) {
        Some(p) => p as nat,
        None => track.items.len(),
    }
}

/// How many of the first positions become a node by themselves.
pub open spec fn nodes_placed(track: TrackModel, table: DistributionTableModel, count: nat) -> nat
    decreases count,
{
    if count == 0 {
        0
    } else {
        nodes_placed(track, table, (count - 1) as nat) + (if item_node(
            track.items[count - 1],
            table,
        ) is Some {
            1nat
        } else {
            0nat
        })
    }
}

/// How many positions are dealt with, from one on: up to the first that is refused, that one tried too.
pub open spec fn positions_tried(track: TrackModel, table: DistributionTableModel, from: int) -> nat
    decreases track.items.len() - from,
{
    if from < 0 || from >= track.items.len() {
        track.items.len()
    } else if refusal_at(track, table, from) is Some {
        (from + 1) as nat
    } else {
        positions_tried(track, table, from + 1)
    }
}

/// What the nodes the emission at a position goes through are kept under.
pub open spec fn conjugations_at(
    track: TrackModel,
    table: DistributionTableModel,
    position: int,
) -> Set<GateKey> {
    match target_of(track, table, position) {
        Some(target) => {
            let flow = flow_of(track, table, position);
            conjugations(flow, passed(flow, path_to(track, position, target)))
        },
        None => Set::empty(),
    }
}

/// What the nodes the emissions at the first positions go through are kept under, those they share once.
pub open spec fn conjugations_met(
    track: TrackModel,
    table: DistributionTableModel,
    count: nat,
) -> Set<GateKey>
    decreases count,
{
    if count == 0 {
        Set::empty()
    } else {
        conjugations_met(track, table, (count - 1) as nat).union(
            conjugations_at(track, table, count - 1),
        )
    }
}

/// How many edges the emission at a position can take.
pub open spec fn edges_at(track: TrackModel, table: DistributionTableModel, position: int) -> nat {
    match target_of(track, table, position) {
        Some(target) => edges_along(
            flow_of(track, table, position),
            path_to(track, position, target),
            track.items[position]->Emission_1,
        ),
        None => 0,
    }
}

/// How many edges the emissions at the first positions can take, together.
pub open spec fn edges_met(track: TrackModel, table: DistributionTableModel, count: nat) -> nat
    decreases count,
{
    if count == 0 {
        0
    } else {
        edges_met(track, table, (count - 1) as nat) + edges_at(track, table, count - 1)
    }
}

/// Whether numbers are left, beside so many nodes and edges, for what is written out of a track until it is done
/// or refused: a node for each position that becomes one, a node for each conjugation, shared ones once, and
/// the edges along the emissions' ways.
pub open spec fn room_for_track(
    track: TrackModel,
    table: DistributionTableModel,
    nodes: nat,
    edges: nat,
) -> bool {
    let known = positions_known(track, table);
    let tried = positions_tried(track, table, 0);
    &&& nodes + nodes_placed(track, table, known) <= u32::MAX
    &&& entry_refusal(track, table) is None ==> {
        &&& nodes + nodes_placed(track, table, known) + conjugations_met(track, table, tried).len()
            <= u32::MAX
        &&& edges + edges_met(track, table, tried) <= u32::MAX
    }
}

/// Whether a builder has just been started from a track.
pub open spec fn started(builder: BuilderModel, track: TrackModel, table: DistributionTableModel) -> bool {
    &&& builder.track == track
    &&& builder.table == table
    &&& new_to(Set::empty(), builder.sinks)
    &&& builder.sinks.len() == track.collectors.len()
    &&& builder.graph == with_nodes(nothing(), builder.sinks, sink_nodes(track.collectors))
    &&& builder.sources.dom() == Set::<usize>::empty()
    &&& builder.gates.dom() == Set::<GateKey>::empty()
}

/// Whether a graph is what building from a track writes: a sink per collector, then a node per position that
/// computes something, then every emission wired to its collector.
pub open spec fn built(track: TrackModel, table: DistributionTableModel, graph: GraphModel) -> bool {
    exists|start: BuilderModel, ready: BuilderModel, done: BuilderModel|
        #![trigger started(start, track, table), all_placed(start, track.items.len(), ready), all_dealt_with(ready, track.items.len(), done)]
        started(start, track, table) && all_placed(start, track.items.len(), ready)
            && all_dealt_with(ready, track.items.len(), done) && graph == done.graph
}

pub(crate) proof fn lemma_counts_grow(
    track: TrackModel,
    table: DistributionTableModel,
    few: nat,
    many: nat,
)
    requires
        few <= many,
    ensures
        nodes_placed(track, table, few) <= nodes_placed(track, table, many),
        conjugations_met(track, table, few).finite(),
        conjugations_met(track, table, many).finite(),
        conjugations_met(track, table, few).subset_of(conjugations_met(track, table, many)),
        conjugations_met(track, table, few).len() <= conjugations_met(track, table, many).len(),
        edges_met(track, table, few) <= edges_met(track, table, many),
    decreases many,
{
    if many > 0 {
        let last = many - 1;
        if let Some(target) = target_of(track, table, last) {
            let flow = flow_of(track, table, last);
            let way = passed(flow, path_to(track, last, target));
            lemma_needs_take(flow, way, 0);
        }
        if few < many {
            lemma_counts_grow(track, table, few, last as nat);
        } else {
            lemma_counts_grow(track, table, last as nat, last as nat);
        }
        vstd::set_lib::lemma_len_subset(
            conjugations_met(track, table, few),
            conjugations_met(track, table, many),
        );
    }
}

/// A position with what it draws from in the table, and none missing before it, is among those known.
proof fn lemma_positions_known(track: TrackModel, table: DistributionTableModel, count: nat)
    requires
        0 < count <= track.items.len(),
        first_missing(track, table, 0) == first_missing(track, table, count - 1),
        track.items[count - 1] matches ItemModel::Emission(emission, _) ==> emission.resolves_in(
            table,
        ),
    ensures
        count <= positions_known(track, table),
        nodes_placed(track, table, count) <= nodes_placed(
            track,
            table,
            positions_known(track, table),
        ),
{
    lemma_first_missing(track, table, count as int);
    lemma_counts_grow(track, table, count, positions_known(track, table));
}

/// The conjugations met by one position more are those met before and those that are new.
proof fn lemma_shared_once(track: TrackModel, table: DistributionTableModel, count: nat)
    ensures
        ({
            let known = conjugations_met(track, table, count);
            let next = conjugations_at(track, table, count as int);
            conjugations_met(track, table, count + 1).len() == known.len() + next.difference(
                known,
            ).len()
        }),
{
    let known = conjugations_met(track, table, count);
    let next = conjugations_at(track, table, count as int);
    let fresh = next.difference(known);
    lemma_counts_grow(track, table, count, count + 1);
    assert(conjugations_met(track, table, count + 1) =~= known + fresh);
    assert(fresh.subset_of(conjugations_met(track, table, count + 1)));
    vstd::set_lib::lemma_len_subset(fresh, conjugations_met(track, table, count + 1));
    vstd::set_lib::lemma_set_disjoint_lens(known, fresh);
}

pub(crate) proof fn lemma_first_missing(track: TrackModel, table: DistributionTableModel, from: int)
    requires
        0 <= from <= track.items.len(),
    ensures
        first_missing(track, table, from) matches Some(p) ==> from <= p < track.items.len(),
    decreases track.items.len() - from,
{
    if from < track.items.len() {
        lemma_first_missing(track, table, from + 1);
    }
}

/// A position with no refusal before it is among those tried.
proof fn lemma_positions_tried(track: TrackModel, table: DistributionTableModel, from: int, at: int)
    requires
        0 <= from <= at < track.items.len(),
        forall|p: int| from <= p < at ==> (#[trigger] refusal_at(track, table, p)) is None,
    ensures
        at < positions_tried(track, table, from) <= track.items.len(),
    decreases track.items.len() - from,
{
    if from < at {
        assert(refusal_at(track, table, from) is None);
        lemma_positions_tried(track, table, from + 1, at);
    } else {
        lemma_tried_bounds(track, table, from);
    }
}

pub(crate) proof fn lemma_tried_bounds(track: TrackModel, table: DistributionTableModel, from: int)
    requires
        0 <= from <= track.items.len(),
    ensures
        from <= positions_tried(track, table, from) <= track.items.len(),
        from < track.items.len() ==> from < positions_tried(track, table, from),
    decreases track.items.len() - from,
{
    if from < track.items.len() {
        lemma_tried_bounds(track, table, from + 1);
    }
}

proof fn lemma_nothing_missing(track: TrackModel, table: DistributionTableModel, from: int)
    requires
        0 <= from <= track.items.len(),
        first_missing(track, table, from) is None,
    ensures
        forall|p: int|
            from <= p < track.items.len() ==> ((#[trigger] track.items[p]) matches ItemModel::Emission(
                emission,
                _,
            ) ==> emission.resolves_in(table)),
    decreases track.items.len() - from,
{
    if from < track.items.len() {
        lemma_nothing_missing(track, table, from + 1);
    }
}

/// What resolution finds is a collector of the track.
proof fn lemma_resolution_in_range(
    track: TrackModel,
    at: int,
    direction: Direction,
    emission: EmitModel,
    qubits: Seq<usize>,
    table: DistributionTableModel,
)
    requires
        track.wf(),
    ensures
        resolution(track, at, direction, emission, qubits, table) matches Some(found) ==> found
            < track.collectors.len(),
    decreases remaining(track.items.len(), at, direction),
{
    if 0 <= at < track.items.len() {
        lemma_resolution_in_range(
            track,
            beyond(at, direction),
            direction,
            emission,
            qubits,
            table,
        );
    }
}

impl<'a> SamplingGraphBuilder<'a> {
    /// Start from a track whose collectors already carry their parameter ranges.
    ///
    /// The sinks are created here rather than during the walk, so an emission's walk always has a node to
    /// terminate at.
    pub fn new(track: Track, table: &'a DistributionTable) -> (builder: Self)
        requires
            track@.collectors.len() <= u32::MAX,
        ensures
            started(builder@, track@, table@),
            builder@.graph.wf(),
            builder@.graph.nodes.dom().len() == track@.collectors.len(),
            builder@.graph.edges.dom().len() == 0,
            track@.wf() && track@.travels() ==> builder@.wf(),
            track@.grouped() ==> builder@.graph.grouped(),
    {
        let mut graph = SamplingGraph::new();
        let mut collector_nodes: Vec<u32> = Vec::new();
        let ghost nodes = sink_nodes(track@.collectors);
        assert(graph@ =~= nothing());
        assert(nodes.take(0) =~= Seq::<NodeModel>::empty());
        let mut c: usize = 0;
        while c < track.collectors.len()
            invariant
                c <= track.collectors@.len(),
                track@.collectors.len() == track.collectors@.len() <= u32::MAX,
                nodes == sink_nodes(track@.collectors),
                collector_nodes@.len() == c,
                new_to(Set::empty(), collector_nodes@),
                graph@ == with_nodes(nothing(), collector_nodes@, nodes.take(c as int)),
                graph@.wf(),
                graph@.nodes.dom().len() == c,
                graph@.edges.dom().len() == 0,
                forall|node: u32| #[trigger]
                    graph@.nodes.dom().contains(node) <==> collector_nodes@.contains(node),
                track@.grouped() ==> graph@.grouped(),
            decreases track.collectors.len() - c,
        {
            let ghost before = graph@;
            let ghost given = collector_nodes@;
            let info = &track.collectors[c];
            assert(track@.collectors[c as int] == info@);
            let node = Node::new(
                clone_list(&info.qubits),
                info.partition.clone(),
                NodeKind::Collect(
                    Collect {
                        synthesizer: info.synthesizer,
                        param_indices: clone_list(&info.param_indices),
                        steps: clone_steps(&info.steps),
                    },
                ),
            );
            let ghost said = node@;
            assert(said == sink_node(info@));
            let index = graph.add_node(node);
            collector_nodes.push(index);
            proof {
                let more = nodes.take(c + 1);
                assert(more.drop_last() =~= nodes.take(c as int));
                assert(more.last() == nodes[c as int]);
                assert(collector_nodes@.drop_last() =~= given);
                assert(!given.contains(index));
                assert(new_to(Set::empty(), collector_nodes@)) by {
                    assert forall|a: int, b: int|
                        0 <= a < collector_nodes@.len() && 0 <= b < collector_nodes@.len() && a != b
                        implies collector_nodes@[a] != collector_nodes@[b] by {
                        if a < c {
                            assert(given.contains(given[a]));
                        }
                        if b < c {
                            assert(given.contains(given[b]));
                        }
                    }
                }
                assert forall|other: u32| #[trigger] graph@.nodes.dom().contains(other)
                    <==> collector_nodes@.contains(other) by {
                    assert(before.nodes.dom().contains(other) <==> given.contains(other));
                    assert(collector_nodes@[c as int] == index);
                    if given.contains(other) {
                        assert(collector_nodes@[given.index_of(other)] == other);
                    }
                    if collector_nodes@.contains(other) && other != index {
                        assert(given[collector_nodes@.index_of(other)] == other);
                    }
                }
                if track@.grouped() {
                    assert forall|other: u32| #[trigger] graph@.nodes.dom().contains(other) implies
                        graph@.nodes[other].qubits.len() == total(graph@.nodes[other].partition) by {
                        if other != index {
                            assert(before.nodes.dom().contains(other));
                        } else {
                            assert(track@.collectors[c as int].qubits.len() == total(
                                track@.collectors[c as int].partition,
                            ));
                        }
                    }
                }
            }
            c += 1;
        }
        assert(nodes.take(c as int) =~= nodes);
        let builder = SamplingGraphBuilder {
            track,
            table,
            graph,
            collector_nodes,
            emission_nodes: IndexMap::new(),
            gate_nodes: GateNodes::new(),
        };
        proof {
            assert forall|k: int| 0 <= k < builder@.sinks.len() implies builder@.graph.nodes.dom().contains(
                #[trigger] builder@.sinks[k],
            ) by {
                assert(builder@.sinks.contains(builder@.sinks[k]));
            }
        }
        builder
    }

    /// The graph so far.
    pub fn graph(&self) -> (graph: &SamplingGraph)
        ensures
            graph@ == self@.graph,
    {
        &self.graph
    }

    /// The node the collector at a place in the list goes by, if there is one.
    pub fn collector_node(&self, index: usize) -> (node: Option<u32>)
        ensures
            node == (if index < self@.sinks.len() {
                Some(self@.sinks[index as int])
            } else {
                None
            }),
    {
        if index < self.collector_nodes.len() {
            Some(self.collector_nodes[index])
        } else {
            None
        }
    }

    /// The node the emission at a position goes by, if it has one yet.
    pub fn emission_node(&self, position: usize) -> (node: Option<u32>)
        requires
            self@.wf(),
        ensures
            node == (if self@.sources.dom().contains(position) {
                Some(self@.sources[position] as u32)
            } else {
                None
            }),
    {
        match self.emission_nodes.get(position) {
            Some(node) => Some(node as u32),
            None => None,
        }
    }

    /// Give every position that computes something a node, before any of them is wired.
    pub fn add_item_nodes(&mut self) -> (result: Result<(), SamplexError>)
        requires
            old(self)@.wf(),
            old(self)@.graph.nodes.dom().len() + nodes_placed(
                old(self)@.track,
                old(self)@.table,
                positions_known(old(self)@.track, old(self)@.table),
            ) <= u32::MAX,
        ensures
            final(self)@.wf(),
            extends_if_grouped(old(self)@, final(self)@),
            final(self)@.graph.nodes.dom().len() == old(self)@.graph.nodes.dom().len() + nodes_placed(
                old(self)@.track,
                old(self)@.table,
                positions_known(old(self)@.track, old(self)@.table),
            ),
            final(self)@.graph.edges.dom() == old(self)@.graph.edges.dom(),
            final(self)@.gates == old(self)@.gates,
            all_placed(
                old(self)@,
                positions_known(old(self)@.track, old(self)@.table),
                final(self)@,
            ),
            match result {
                Ok(_) => entry_refusal(old(self)@.track, old(self)@.table) is None && (forall|p: int|
                    0 <= p < old(self)@.track.items.len()
                        && (#[trigger] old(self)@.track.items[p]) is Emission
                        ==> final(self)@.sources.dom().contains(p as usize)),
                Err(error) => entry_refusal(old(self)@.track, old(self)@.table) == Some(error@),
            },
    {
        let ghost before = self@;
        let ghost track = before.track;
        let ghost table = before.table;
        let count: usize = self.track.items.len();
        let mut position: usize = 0;
        while position < count
            invariant
                position <= count,
                before == old(self)@,
                track == before.track,
                table == before.table,
                count == track.items.len(),
                self@.track == track,
                self@.table == table,
                before.wf(),
                self@.wf(),
                all_placed(before, position as nat, self@),
                first_missing(track, table, 0) == first_missing(track, table, position as int),
                before.graph.nodes.dom().len() + nodes_placed(
                    track,
                    table,
                    positions_known(track, table),
                ) <= u32::MAX,
                self@.graph.nodes.dom().len() == before.graph.nodes.dom().len() + nodes_placed(
                    track,
                    table,
                    position as nat,
                ),
                self@.graph.edges == before.graph.edges,
                self@.gates == before.gates,
                extends_if_grouped(before, self@),
                forall|p: int|
                    0 <= p < position && (#[trigger] track.items[p]) is Emission
                        ==> self@.sources.dom().contains(p as usize),
            decreases count - position,
        {
            let ghost middle = self@;
            let ghost item = track.items[position as int];
            proof {
                assert(self.track@.items[position as int] == self.track.items@[position as int]@);
            }
            let made: Option<Node> = match &self.track.items[position] {
                Item::Emission(emission, qubits) => {
                    assert(emission@.direction is Some && emission@.parts.len() > 0);
                    match emission_kind(emission, self.table) {
                        Ok(kind) => Some(
                            Node::new(clone_list(qubits), emission.partition.clone(), kind),
                        ),
                        Err(error) => {
                            assert(first_missing(track, table, 0) == Some(position as int));
                            return Err(error);
                        },
                    }
                },
                Item::Measure(qubits, clbits) => Some(
                    Node::singletons(
                        clone_list(qubits),
                        NodeKind::Measure(Measure { clbit_indices: clone_list(clbits) }),
                    ),
                ),
                Item::Reset(qubits) => Some(
                    Node::singletons(clone_list(qubits), NodeKind::Reset),
                ),
                _ => None,
            };
            let emits = matches!(&self.track.items[position], Item::Emission(_, _));
            assert(emits == (item is Emission));
            match made {
                Some(node) => {
                    let ghost said = node@;
                    assert(item_node(item, table) == Some(said));
                    proof {
                        lemma_positions_known(track, table, (position + 1) as nat);
                    }
                    let index = self.graph.add_node(node);
                    if emits {
                        self.emission_nodes.insert(position, index as usize);
                    }
                    proof {
                        let after = self@;
                        assert(after =~= (BuilderModel {
                            graph: with_node(middle.graph, index, said),
                            sources: if item is Emission {
                                middle.sources.insert(position, index as usize)
                            } else {
                                middle.sources
                            },
                            ..middle
                        }));
                        assert(placed_as(middle, position as int, index, after));
                        lemma_placed(middle, position as int, index, after);
                        lemma_extends_if_grouped(before, middle, after);
                    }
                },
                None => {
                    assert(item_node(item, table) is None);
                    assert(placed(middle, position as int, self@));
                },
            }
            proof {
                let reached = (position + 1) as nat;
                assert(placed(middle, position as int, self@));
                assert(all_placed(before, (reached - 1) as nat, middle));
                assert(placed(middle, reached - 1, self@));
                assert(all_placed(before, reached, self@));
                assert forall|p: int| 0 <= p < position + 1 && (#[trigger] track.items[p]) is Emission
                    implies self@.sources.dom().contains(p as usize) by {
                    if p < position {
                        assert(middle.sources.dom().contains(p as usize));
                    }
                }
            }
            position += 1;
        }
        Ok(())
    }

    /// The collector this position's emission is headed for, or `None` if nothing is emitted here.
    ///
    /// Target resolution is purely positional: scan from the emission in its travel direction for the
    /// nearest compatible collector. An emission without one would be a randomization that is never undone,
    /// so it is reported rather than skipped.
    pub fn target_for(&self, position: usize) -> (result: Result<Option<usize>, SamplexError>)
        requires
            self@.wf(),
            position < self@.track.items.len(),
            self@.track.items[position as int] matches ItemModel::Emission(emission, _)
                ==> emission.resolves_in(self@.table),
        ensures
            match result {
                Ok(Some(target)) => self@.track.items[position as int] is Emission && target_of(
                    self@.track,
                    self@.table,
                    position as int,
                ) == Some(target) && target < self@.track.collectors.len(),
                Ok(None) => !(self@.track.items[position as int] is Emission),
                Err(error) => self@.track.items[position as int] is Emission && target_of(
                    self@.track,
                    self@.table,
                    position as int,
                ) is None && refusal_at(self@.track, self@.table, position as int) == Some(error@),
            },
    {
        let count: usize = self.track.items.len();
        assert(position < count);
        assert(self@.track.items[position as int] == self.track.items@[position as int]@);
        match &self.track.items[position] {
            Item::Emission(emission, qubits) => {
                assert(emission@.direction is Some);
                let direction = match emission.direction {
                    Some(direction) => direction,
                    None => Direction::Left,
                };
                proof {
                    lemma_resolution_in_range(
                        self@.track,
                        beyond(position as int, direction),
                        direction,
                        emission@,
                        qubits@,
                        self@.table,
                    );
                }
                match self.track.resolve_collector(
                    position,
                    direction,
                    emission,
                    qubits.as_slice(),
                    self.table,
                ) {
                    Some(target) => Ok(Some(target)),
                    None => Err(
                        SamplexError::EmissionWithoutCollector {
                            qubits: clone_list(qubits),
                            direction,
                        },
                    ),
                }
            },
            _ => Ok(None),
        }
    }

    /// Wire one emission's path: every gate between it and its collector, chained per qubit.
    pub fn propagate(&mut self, from: usize, target_index: usize) -> (result: Result<(), SamplexError>)
        requires
            old(self)@.wf(),
            from < old(self)@.track.items.len(),
            old(self)@.track.items[from as int] matches ItemModel::Emission(emission, _)
                && emission.resolves_in(old(self)@.table),
            old(self)@.sources.dom().contains(from),
            target_index < old(self)@.track.collectors.len(),
            ({
                let path = path_to(old(self)@.track, from as int, target_index);
                room_for_walk(
                    old(self)@.graph,
                    old(self)@.gates,
                    flow_of(old(self)@.track, old(self)@.table, from as int),
                    path,
                    old(self)@.track.items[from as int]->Emission_1,
                )
            }),
        ensures
            ({
                let path = path_to(old(self)@.track, from as int, target_index);
                let qubits = old(self)@.track.items[from as int]->Emission_1;
                &&& final(self)@.wf()
                &&& extends_if_grouped(old(self)@, final(self)@)
                &&& made_for_walk(
                    old(self)@.graph,
                    old(self)@.gates,
                    flow_of(old(self)@.track, old(self)@.table, from as int),
                    path,
                    qubits,
                    final(self)@.graph,
                    final(self)@.gates,
                )
                &&& propagated(old(self)@, from as int, target_index, final(self)@)
                &&& match result {
                    Ok(_) => rule_refusal(
                        flow_of(old(self)@.track, old(self)@.table, from as int),
                        path,
                    ) is None,
                    Err(error) => rule_refusal(
                        flow_of(old(self)@.track, old(self)@.table, from as int),
                        path,
                    ) == Some(error@),
                }
            }),
    {
        let ghost before = self@;
        let count: usize = self.track.items.len();
        assert(from < count);
        assert(self.track@.items[from as int] == self.track.items@[from as int]@);
        let source = match self.emission_nodes.get(from) {
            Some(node) => node as u32,
            None => 0,
        };
        assert(before.graph.nodes.dom().contains(before.sources[from] as u32));
        assert(before.graph.nodes.dom().contains(before.sinks[target_index as int]));
        let target_node = self.collector_nodes[target_index];
        match &self.track.items[from] {
            Item::Emission(emission, qubits) => {
                let direction = match emission.direction {
                    Some(direction) => direction,
                    None => Direction::Left,
                };
                let virtual_type = emission.virtual_type(self.table);
                let result = wire(
                    &self.track.items,
                    &self.track.collectors,
                    &mut self.graph,
                    &mut self.gate_nodes,
                    from,
                    direction,
                    virtual_type,
                    qubits,
                    source,
                    target_index,
                    target_node,
                );
                proof {
                    let after = self@;
                    assert(after =~= (BuilderModel {
                        graph: after.graph,
                        gates: after.gates,
                        ..before
                    }));
                    assert forall|c: int| 0 <= c < after.sinks.len() implies after.graph.nodes.dom().contains(
                        #[trigger] after.sinks[c],
                    ) by {
                        assert(before.graph.nodes.dom().contains(before.sinks[c]));
                    }
                    assert forall|p: usize| #[trigger] after.sources.dom().contains(p) implies
                        after.sources[p] <= u32::MAX && after.graph.nodes.dom().contains(
                        after.sources[p] as u32,
                    ) by {
                        assert(before.sources.dom().contains(p));
                        assert(before.graph.nodes.dom().contains(before.sources[p] as u32));
                    }
                }
                result
            },
            _ => Ok(()),
        }
    }

    /// Wire every emission to its collector and hand back the finished graph.
    ///
    /// Resolution and wiring stay interleaved position by position rather than batched, because the first
    /// refusal is the one reported: an unresolvable emission late on the track must not pre-empt a gate with
    /// no propagation rule earlier on it.
    pub fn build(self) -> (result: Result<SamplingGraph, SamplexError>)
        requires
            self@.wf(),
            started(self@, self@.track, self@.table),
            room_for_track(
                self@.track,
                self@.table,
                self@.graph.nodes.dom().len(),
                self@.graph.edges.dom().len(),
            ),
        ensures
            match result {
                Ok(graph) => build_refusal(self@.track, self@.table) is None && built(
                    self@.track,
                    self@.table,
                    graph@,
                ) && graph@.wf() && (self@.track.grouped() && self@.graph.grouped()
                    ==> graph@.grouped()),
                Err(error) => build_refusal(self@.track, self@.table) == Some(error@),
            },
    {
        let ghost start = self@;
        let ghost track = start.track;
        let ghost table = start.table;
        let mut builder = self;
        builder.add_item_nodes()?;
        let ghost ready = builder@;
        proof {
            lemma_nothing_missing(track, table, 0);
            lemma_placed_keeps(start, track.items.len(), ready);
        }
        let count: usize = builder.track.items.len();
        let mut position: usize = 0;
        while position < count
            invariant
                position <= count,
                start == self@,
                track == start.track,
                table == start.table,
                count == track.items.len(),
                ready.track == track,
                ready.table == table,
                builder@.track == track,
                builder@.table == table,
                builder@.sources == ready.sources,
                builder@.wf(),
                all_dealt_with(ready, position as nat, builder@),
                extends_if_grouped(start, builder@),
                entry_refusal(track, table) is None,
                first_refusal(track, table, 0) == first_refusal(track, table, position as int),
                forall|p: int|
                    0 <= p < count ==> ((#[trigger] track.items[p]) matches ItemModel::Emission(
                        emission,
                        _,
                    ) ==> emission.resolves_in(table)),
                forall|p: int|
                    0 <= p < count && (#[trigger] track.items[p]) is Emission
                        ==> ready.sources.dom().contains(p as usize),
                forall|p: int|
                    0 <= p < position ==> (#[trigger] refusal_at(track, table, p)) is None,
                room_for_track(
                    track,
                    table,
                    start.graph.nodes.dom().len(),
                    start.graph.edges.dom().len(),
                ),
                builder@.gates.dom() == conjugations_met(track, table, position as nat),
                builder@.graph.nodes.dom().len() == start.graph.nodes.dom().len() + nodes_placed(
                    track,
                    table,
                    positions_known(track, table),
                ) + conjugations_met(track, table, position as nat).len(),
                builder@.graph.edges.dom().len() <= start.graph.edges.dom().len() + edges_met(
                    track,
                    table,
                    position as nat,
                ),
            decreases count - position,
        {
            let ghost middle = builder@;
            proof {
                lemma_positions_tried(track, table, 0, position as int);
                lemma_counts_grow(
                    track,
                    table,
                    (position + 1) as nat,
                    positions_tried(track, table, 0),
                );
                lemma_shared_once(track, table, position as nat);
                assert(track.items[position as int] is Emission ==> ready.sources.dom().contains(
                    position,
                ));
            }
            match builder.target_for(position) {
                Ok(Some(target)) => {
                    match builder.propagate(position, target) {
                        Ok(_) => {},
                        Err(error) => {
                            return Err(error);
                        },
                    }
                    proof {
                        lemma_extends_if_grouped(start, middle, builder@);
                    }
                },
                Ok(None) => {
                    proof {
                        let known = conjugations_met(track, table, position as nat);
                        let next = conjugations_at(track, table, position as int);
                        assert(next.difference(known) =~= Set::<GateKey>::empty());
                        assert(known.union(next) =~= known);
                    }
                },
                Err(error) => {
                    return Err(error);
                },
            }
            proof {
                assert(dealt_with(middle, position as int, builder@));
                assert(all_dealt_with(ready, (position + 1) as nat, builder@));
            }
            position += 1;
        }
        proof {
            assert(started(start, track, table));
            assert(all_placed(start, track.items.len(), ready));
            assert(all_dealt_with(ready, track.items.len(), builder@));
            assert(built(track, table, builder@.graph));
        }
        builder.into_graph()
    }

    fn into_graph(self) -> (result: Result<SamplingGraph, SamplexError>)
        ensures
            result matches Ok(graph) && graph@ == self@.graph,
    {
        Ok(self.graph)
    }
}

/// Whether a builder's graph has every node of another's, unchanged, and is grouped if the other is and the
/// track is.
pub open spec fn extends_if_grouped(before: BuilderModel, after: BuilderModel) -> bool {
    &&& forall|node: u32| #[trigger]
        before.graph.nodes.dom().contains(node) ==> after.graph.nodes.dom().contains(node)
            && after.graph.nodes[node] == before.graph.nodes[node]
    &&& before.track.grouped() && before.graph.grouped() ==> after.graph.grouped()
    &&& after.track == before.track
    &&& after.table == before.table
    &&& after.sinks == before.sinks
}

proof fn lemma_extends_if_grouped(first: BuilderModel, second: BuilderModel, third: BuilderModel)
    requires
        extends_if_grouped(first, second),
        extends_if_grouped(second, third),
    ensures
        extends_if_grouped(first, third),
{
    assert forall|node: u32| #[trigger] first.graph.nodes.dom().contains(node) implies
        third.graph.nodes.dom().contains(node) && third.graph.nodes[node] == first.graph.nodes[node] by {
        assert(second.graph.nodes.dom().contains(node));
    }
}

proof fn lemma_placed(before: BuilderModel, position: int, index: u32, after: BuilderModel)
    requires
        before.wf(),
        0 <= position < before.track.items.len(),
        placed_as(before, position, index, after),
        before.track.items.len() <= usize::MAX,
    ensures
        after.wf(),
        extends_if_grouped(before, after),
{
    let node = item_node(before.track.items[position], before.table)->0;
    crate::virtual_flow_graph::lemma_with_node_wf(before.graph, index, node);
    assert forall|key: GateKey| #[trigger] after.gates.dom().contains(key) implies
        after.graph.nodes.dom().contains(after.gates[key]) by {
        assert(before.gates.dom().contains(key));
    }
    assert forall|c: int| 0 <= c < after.sinks.len() implies after.graph.nodes.dom().contains(
        #[trigger] after.sinks[c],
    ) by {
        assert(before.graph.nodes.dom().contains(before.sinks[c]));
    }
    assert forall|p: usize| #[trigger] after.sources.dom().contains(p) implies after.sources[p]
        <= u32::MAX && after.graph.nodes.dom().contains(after.sources[p] as u32) by {
        if before.sources.dom().contains(p) {
            assert(before.graph.nodes.dom().contains(before.sources[p] as u32));
        }
    }
    if before.track.grouped() && before.graph.grouped() {
        assert(node.qubits.len() == total(node.partition)) by {
            match before.track.items[position] {
                ItemModel::Measure(qubits, _) => {
                    lemma_singletons_total(qubits.len());
                },
                ItemModel::Reset(qubits) => {
                    lemma_singletons_total(qubits.len());
                },
                _ => {},
            }
        }
        assert forall|other: u32| #[trigger] after.graph.nodes.dom().contains(other) implies
            after.graph.nodes[other].qubits.len() == total(after.graph.nodes[other].partition) by {
            if other != index {
                assert(before.graph.nodes.dom().contains(other));
            }
        }
    }
}

proof fn lemma_singletons_total(n: nat)
    ensures
        total(singleton_parts(n)) == n,
    decreases n,
{
    if n > 0 {
        lemma_singletons_total((n - 1) as nat);
        assert(singleton_parts(n).drop_last() =~= singleton_parts((n - 1) as nat));
    }
}

proof fn lemma_placed_keeps(before: BuilderModel, count: nat, after: BuilderModel)
    requires
        all_placed(before, count, after),
    ensures
        after.track == before.track,
        after.table == before.table,
        after.sinks == before.sinks,
        after.gates == before.gates,
    decreases count,
{
    if count > 0 {
        let middle = choose|middle: BuilderModel|
            all_placed(before, (count - 1) as nat, middle) && #[trigger] placed(
                middle,
                count - 1,
                after,
            );
        lemma_placed_keeps(before, (count - 1) as nat, middle);
    }
}

/// The graph node for one emission, resolved from the table entry its key points at.
fn emission_kind(emission: &Emit, table: &DistributionTable) -> (result: Result<NodeKind, SamplexError>)
    requires
        emission@.parts.len() > 0,
        emission@.direction is Some,
    ensures
        match result {
            Ok(kind) => emission@.resolves_in(table@) && kind@ == NodeKindModel::Emission(
                EmissionModel {
                    key: emission@.parts[0].dist,
                    entry: table@.entries[emission@.parts[0].dist.0 as int],
                    direction: emission@.direction->0,
                    virtual_type: emission@.group_in(table@),
                },
            ),
            Err(error) => !emission@.resolves_in(table@) && error@ == (ErrorModel::MissingTableEntry {
                dist: emission@.parts[0].dist,
            }),
        },
{
    let direction = match emission.direction {
        Some(direction) => direction,
        None => Direction::Left,
    };
    match table.get(emission.dist()) {
        Some(entry) => Ok(
            NodeKind::Emission(
                Emission {
                    key: emission.dist(),
                    entry: entry.clone(),
                    direction,
                    virtual_type: entry.virtual_type(),
                },
            ),
        ),
        None => Err(SamplexError::MissingTableEntry { dist: emission.dist() }),
    }
}

} // verus!
