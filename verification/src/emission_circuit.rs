//! The emission circuit's vocabulary: the `Emit` instruction and the `Collect` annotation.
//!
//! One `Emit` stands in for one emission. A `Twirl` produces two, the inverse pair, sharing a
//! [`DistKey`] and its draw slots, with opposite [`Direction`]s; `InjectNoise` and `ChangeBasis` /
//! `InjectLocalClifford` produce one each.

use vstd::prelude::*;
use vstd::string::*;

use crate::annotated_circuit::SynthesizerType;
use crate::distributions::DistEntry;
use crate::distributions::DistEntryModel;
use crate::distributions::DistKey;
use crate::distributions::DistributionTable;
use crate::distributions::DistributionTableModel;
use crate::partition::clone_list;
use crate::partition::total;
use crate::partition::Partition;
use crate::text;
use crate::virtual_flow_graph::Direction;
use crate::virtual_type::VirtualType;

verus! {

/// The instruction name reported for every emission, regardless of kind. Which kind an emission is comes
/// from the table entry its `dist` key points at; see [`Emit::source`].
pub const EMIT_NAME: &'static str = "emit";

/// Per-part descriptor for an emission, parallel with its partition.
#[derive(Debug, Clone, Copy, PartialEq, Eq, Structural)]
pub struct EmitPart {
    /// The distribution this part draws from.
    pub dist: DistKey,
    /// Index into this part's `dist` key's sample array.
    pub draw: u32,
    /// Whether to take the adjoint of the sampled value before composing or propagating. True for the
    /// far half of a twirl pair, false everywhere else.
    pub adjoint: bool,
}

/// An emission.
#[derive(Debug, PartialEq, Eq)]
pub struct Emit {
    /// Which way the emitted virtual state flows, or `None` if it has already resolved in place, owned
    /// directly by the collector body it sits in rather than propagating towards one.
    pub direction: Option<Direction>,
    /// How the emission's qubits group into subsystems, by index into its own qubits.
    pub partition: Partition,
    /// Per-part descriptors, parallel with the partition.
    pub parts: Vec<EmitPart>,
}

/// What an emission says.
pub struct EmitModel {
    pub direction: Option<Direction>,
    pub partition: Seq<Seq<usize>>,
    pub parts: Seq<EmitPart>,
}

impl View for Emit {
    type V = EmitModel;

    open spec fn view(&self) -> EmitModel {
        EmitModel {
            direction: self.direction,
            partition: self.partition@,
            parts: self.parts@,
        }
    }
}

impl Clone for Emit {
    fn clone(&self) -> (copy: Self)
        ensures
            copy@ == self@,
    {
        Emit {
            direction: self.direction,
            partition: self.partition.clone(),
            parts: clone_list(&self.parts),
        }
    }
}

impl EmitModel {
    /// Whether the emission's key has an entry in the table, so that what it emits is known.
    pub open spec fn resolves_in(self, table: DistributionTableModel) -> bool {
        self.parts.len() > 0 && self.parts[0].dist.0 < table.entries.len()
    }

    /// The algebraic type of what the emission emits.
    pub open spec fn group_in(self, table: DistributionTableModel) -> VirtualType {
        table.entries[self.parts[0].dist.0 as int].group()
    }

    /// The same emission, resolved in place.
    pub open spec fn localized(self) -> EmitModel {
        EmitModel { direction: None, partition: self.partition, parts: self.parts }
    }

    /// The word for the direction an emission travels in.
    pub open spec fn direction_text(self) -> Seq<char> {
        match self.direction {
            Some(Direction::Left) => "left"@,
            Some(Direction::Right) => "right"@,
            None => "local"@,
        }
    }
}

impl Emit {
    /// The distribution key of the first part. Convenience for the common uniform case where all parts
    /// share the same distribution.
    pub fn dist(&self) -> (dist: DistKey)
        requires
            self@.parts.len() > 0,
        ensures
            dist == self@.parts[0].dist,
    {
        self.parts[0].dist
    }

    /// The virtual type of the first part, resolved via `table`. Convenience for the common uniform case
    /// where all parts share the same virtual type.
    pub fn virtual_type(&self, table: &DistributionTable) -> (virtual_type: VirtualType)
        requires
            self@.resolves_in(table@),
        ensures
            virtual_type == self@.group_in(table@),
    {
        match table.get(self.dist()) {
            Some(entry) => entry.virtual_type(),
            None => VirtualType::Pauli,
        }
    }

    /// The instruction name.
    pub fn name(&self) -> (name: &'static str)
        ensures
            name@ == EMIT_NAME@,
    {
        EMIT_NAME
    }

    /// How many qubits the emission covers.
    pub fn num_qubits(&self) -> (count: usize)
        ensures
            count == total(self@.partition),
    {
        self.partition.num_qubits()
    }

    /// Which kind of annotation this emission stands in for, read off the table's entry for its key.
    /// `None` if no table is given, or if the key has no entry in it.
    pub fn source(&self, table: Option<&DistributionTable>) -> (source: Option<&'static str>)
        requires
            self@.parts.len() > 0,
        ensures
            match table {
                Some(table) if self@.resolves_in(table@) => source matches Some(word) && word@ == (
                match table@.entries[self@.parts[0].dist.0 as int] {
                    DistEntryModel::Distribution(_) => "twirl"@,
                    DistEntryModel::Basis { .. } => "change_basis"@,
                    DistEntryModel::Noise { .. } => "inject_noise"@,
                }),
                _ => source is None,
            },
    {
        match table {
            Some(table) => match table.get(self.dist()) {
                Some(entry) => Some(
                    match entry {
                        DistEntry::Distribution(_) => "twirl",
                        DistEntry::Basis { .. } => "change_basis",
                        DistEntry::Noise { .. } => "inject_noise",
                    },
                ),
                None => None,
            },
            None => None,
        }
    }

    /// The word for the direction this emission travels in.
    pub fn direction_word(&self) -> (word: &'static str)
        ensures
            word@ == self@.direction_text(),
    {
        match self.direction {
            Some(Direction::Left) => "left",
            Some(Direction::Right) => "right",
            None => "local",
        }
    }

    /// The draw indices for each part.
    pub fn draws(&self) -> (draws: Vec<usize>)
        ensures
            draws@ == self@.parts.map_values(|part: EmitPart| part.draw as usize),
    {
        let mut draws: Vec<usize> = Vec::new();
        let mut i: usize = 0;
        while i < self.parts.len()
            invariant
                i <= self.parts.len(),
                draws.len() == i,
                forall|k: int| 0 <= k < i ==> draws@[k] == self.parts@[k].draw as usize,
            decreases self.parts.len() - i,
        {
            draws.push(self.parts[i].draw as usize);
            i += 1;
        }
        assert(draws@ =~= self@.parts.map_values(|part: EmitPart| part.draw as usize));
        draws
    }

    /// Whether each part takes the adjoint of its sampled value.
    pub fn adjoints(&self) -> (adjoints: Vec<bool>)
        ensures
            adjoints@ == self@.parts.map_values(|part: EmitPart| part.adjoint),
    {
        let mut adjoints: Vec<bool> = Vec::new();
        let mut i: usize = 0;
        while i < self.parts.len()
            invariant
                i <= self.parts.len(),
                adjoints.len() == i,
                forall|k: int| 0 <= k < i ==> adjoints@[k] == self.parts@[k].adjoint,
            decreases self.parts.len() - i,
        {
            adjoints.push(self.parts[i].adjoint);
            i += 1;
        }
        assert(adjoints@ =~= self@.parts.map_values(|part: EmitPart| part.adjoint));
        adjoints
    }

    /// The emission as text, such as `Emit(dist=#0, left, [[0], [1]], draws=[0, 1], adj)`.
    pub fn to_text(&self) -> (text: String)
        requires
            self@.parts.len() > 0,
        ensures
            text@ == "Emit(dist=#"@ + text::decimal_text(self@.parts[0].dist.0 as nat) + ", "@
                + self@.direction_text() + ", "@ + text::nested_numbers_text(self@.partition)
                + ", draws="@ + text::numbers_text(
                self@.parts.map_values(|part: EmitPart| part.draw as usize),
            ) + (if exists|p: int| 0 <= p < self@.parts.len() && (#[trigger] self@.parts[p]).adjoint {
                ", adj"@
            } else {
                ""@
            }) + ")"@,
    {
        let mut text = String::from_str("Emit(dist=#");
        text.append(text::decimal(self.dist().index()).as_str());
        text.append(", ");
        text.append(self.direction_word());
        text.append(", ");
        text.append(self.partition.to_text().as_str());
        text.append(", draws=");
        text.append(text::numbers(self.draws().as_slice()).as_str());
        text.append(
            if self.any_adjoint() {
                ", adj"
            } else {
                ""
            },
        );
        text.append(")");
        text
    }

    fn any_adjoint(&self) -> (any: bool)
        ensures
            any == (exists|p: int|
                0 <= p < self@.parts.len() && (#[trigger] self@.parts[p]).adjoint),
    {
        let mut i: usize = 0;
        while i < self.parts.len()
            invariant
                i <= self.parts.len(),
                forall|p: int| 0 <= p < i ==> !(#[trigger] self@.parts[p]).adjoint,
            decreases self.parts.len() - i,
        {
            if self.parts[i].adjoint {
                assert(self@.parts[i as int].adjoint);
                return true;
            }
            i += 1;
        }
        false
    }
}

// `Collect` is deliberately kept out of the vocabulary a user writes: those five annotations are the
// input, while this one is written by the build pass. Keeping them apart is what makes a lowered circuit
// distinguishable from an annotated one.
/// Per-part descriptor for a collector, parallel with its partition.
#[derive(Debug, Clone, Copy, PartialEq, Eq, Structural)]
pub struct CollectPart {
    /// How the collected virtual gates on this part will be synthesized.
    pub synthesizer: SynthesizerType,
}

/// A collect annotation: marks a box whose body holds what a dressing absorbed, to be replaced by a
/// synthesizer template during lowering.
#[derive(Debug, PartialEq, Eq)]
pub struct Collect {
    /// How the collector's qubits group into subsystems, by index into the box's own qubits.
    pub partition: Partition,
    /// Per-part descriptors, parallel with the partition.
    pub parts: Vec<CollectPart>,
}

/// What a collect annotation says.
pub struct CollectModel {
    pub partition: Seq<Seq<usize>>,
    pub parts: Seq<CollectPart>,
}

impl View for Collect {
    type V = CollectModel;

    open spec fn view(&self) -> CollectModel {
        CollectModel { partition: self.partition@, parts: self.parts@ }
    }
}

impl Clone for Collect {
    fn clone(&self) -> (copy: Self)
        ensures
            copy@ == self@,
    {
        Collect { partition: self.partition.clone(), parts: clone_list(&self.parts) }
    }
}

impl CollectModel {
    /// Whether every part is synthesized this way.
    pub open spec fn all_synthesize(self, synthesizer: SynthesizerType) -> bool {
        forall|p: int|
            0 <= p < self.parts.len() ==> (#[trigger] self.parts[p]).synthesizer == synthesizer
    }
}

impl Collect {
    /// A collect annotation covering no qubits.
    ///
    /// The partition is empty because a bare annotation has no box to take its width from yet, while the
    /// one part is what [`synthesizer`](Self::synthesizer) reads.
    pub fn bare(synthesizer: SynthesizerType) -> (collect: Self)
        ensures
            collect@.partition == Seq::<Seq<usize>>::empty(),
            collect@.parts == seq![CollectPart { synthesizer }],
    {
        let mut parts: Vec<CollectPart> = Vec::new();
        parts.push(CollectPart { synthesizer });
        let collect = Collect { partition: Partition::singletons(0), parts };
        assert(collect@.partition =~= Seq::<Seq<usize>>::empty());
        assert(collect@.parts =~= seq![CollectPart { synthesizer }]);
        collect
    }

    /// The synthesizer of the first part. Convenience for the common uniform case where all parts share
    /// the same synthesizer.
    pub fn synthesizer(&self) -> (synthesizer: SynthesizerType)
        requires
            self@.parts.len() > 0,
        ensures
            synthesizer == self@.parts[0].synthesizer,
    {
        self.parts[0].synthesizer
    }

    /// Whether every part is synthesized this way.
    pub fn synthesizes_all(&self, synthesizer: SynthesizerType) -> (all: bool)
        ensures
            all == self@.all_synthesize(synthesizer),
    {
        let mut i: usize = 0;
        while i < self.parts.len()
            invariant
                i <= self.parts.len(),
                forall|p: int| 0 <= p < i ==> (#[trigger] self@.parts[p]).synthesizer == synthesizer,
            decreases self.parts.len() - i,
        {
            if self.parts[i].synthesizer != synthesizer {
                assert(self@.parts[i as int].synthesizer != synthesizer);
                return false;
            }
            i += 1;
        }
        true
    }

    /// Whether the given virtual type is accepted by all parts of this collector.
    pub fn accepts(&self, virtual_type: VirtualType) -> (accepted: bool)
        ensures
            accepted == (forall|p: int|
                0 <= p < self@.parts.len() ==> (#[trigger] self@.parts[p]).synthesizer.accepts_type(
                    virtual_type,
                )),
    {
        let mut i: usize = 0;
        while i < self.parts.len()
            invariant
                i <= self.parts.len(),
                forall|p: int|
                    0 <= p < i ==> (#[trigger] self@.parts[p]).synthesizer.accepts_type(virtual_type),
            decreases self.parts.len() - i,
        {
            if !self.parts[i].synthesizer.accepts(virtual_type) {
                assert(!self@.parts[i as int].synthesizer.accepts_type(virtual_type));
                return false;
            }
            i += 1;
        }
        true
    }
}

} // verus!
