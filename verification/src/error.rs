//! Errors raised while compiling an annotated circuit.

use vstd::prelude::*;
use vstd::string::*;

use crate::annotated_circuit::AnnotationKind;
use crate::distributions::DistKey;
use crate::emission_circuit_navigation::Site;
use crate::emission_circuit_navigation::SiteModel;
use crate::standard_gate::StandardGate;
use crate::virtual_flow_graph::Direction;
use crate::virtual_type::VirtualType;

verus! {

/// Why a box's annotations do not go together.
#[derive(Debug, Clone, Copy, PartialEq, Eq, Structural)]
pub enum LowerError {
    DuplicateAnnotation(AnnotationKind),
    InjectNoiseWithoutTwirl,
    InjectLocalCliffordWithoutTwirl,
    ChangeBasisConflict,
}

impl LowerError {
    /// The message a caller is shown.
    pub open spec fn message_text(self) -> Seq<char> {
        match self {
            Self::DuplicateAnnotation(kind) => "Duplicate annotation type "@ + kind.ident_text()
                + " on a single box."@,
            Self::InjectNoiseWithoutTwirl => "InjectNoise requires a Twirl on the same box."@,
            Self::InjectLocalCliffordWithoutTwirl => {
                "InjectLocalClifford requires a Twirl on the same box."@
            },
            Self::ChangeBasisConflict => {
                "ChangeBasis and InjectLocalClifford are mutually exclusive on the same box."@
            },
        }
    }

    /// The message a caller is shown.
    pub fn message(&self) -> (message: String)
        ensures
            message@ == self.message_text(),
    {
        match self {
            Self::DuplicateAnnotation(kind) => {
                let mut message = String::from_str("Duplicate annotation type ");
                message.append(kind.ident());
                message.append(" on a single box.");
                message
            },
            Self::InjectNoiseWithoutTwirl => {
                String::from_str("InjectNoise requires a Twirl on the same box.")
            },
            Self::InjectLocalCliffordWithoutTwirl => {
                String::from_str("InjectLocalClifford requires a Twirl on the same box.")
            },
            Self::ChangeBasisConflict => {
                String::from_str(
                    "ChangeBasis and InjectLocalClifford are mutually exclusive on the same box.",
                )
            },
        }
    }
}

/// Why a circuit could not be compiled.
#[derive(Debug, PartialEq, Eq)]
pub enum SamplexError {
    /// An instruction holds several circuits where one body is expected.
    BoxWithoutOneBody,
    /// A site was to be read in the frame of a scope that it is not at or below.
    LiftIntoDeeperScope,
    /// A path steps into a box without a body.
    ScopeWithoutBody,
    /// A path to rewrite at steps into a box without exactly one body.
    ScopeWithoutOneBody,
    /// Content of a box stands on a wire the box does not have.
    ContentOffItsBoxWires,
    /// A walk reached a box it cannot descend into.
    DescentIntoBodylessBox,
    /// Two parameter ranges were minted for one collect box.
    DuplicateCollectorParams(Site),
    /// The graph has a collector the template has no parameters for.
    CollectorNotInTemplate(Site),
    /// The template has parameters for collectors the graph does not have.
    CollectorsNotInGraph { count: usize, site: Site },
    /// No collector ahead of an emission can take it.
    EmissionWithoutCollector { qubits: Vec<usize>, direction: Direction },
    /// A gate stands on the path of virtual gates it takes out of their group.
    NoPropagationRule { virtual_type: VirtualType, gate: StandardGate },
    /// An emission draws from a distribution that is not in the table.
    MissingTableEntry { dist: DistKey },
    /// An instruction that is not a box holds a circuit.
    BodyOnNonBox(String),
    /// An absorbed angle is a complex number.
    ComplexAbsorbedAngle(u64, u64),
    /// An absorbed angle has no free symbols and no value either.
    UndefinedAbsorbedAngle,
    /// An absorbed parameter is not an angle.
    OpaqueAbsorbedParameter,
    /// A box's annotations do not go together.
    Annotations(LowerError),
    /// Control flow other than a box.
    UnsupportedControlFlow(String),
    /// Control flow other than a box, in the body of one.
    UnsupportedNestedControlFlow(String),
    /// A box has no body.
    BoxWithoutBody,
    /// Merging collectors into one would have it both before and after something else.
    MergeWouldCycle,
}

/// What an error says.
pub enum ErrorModel {
    BoxWithoutOneBody,
    LiftIntoDeeperScope,
    ScopeWithoutBody,
    ScopeWithoutOneBody,
    ContentOffItsBoxWires,
    DescentIntoBodylessBox,
    DuplicateCollectorParams(SiteModel),
    CollectorNotInTemplate(SiteModel),
    CollectorsNotInGraph { count: nat, site: SiteModel },
    EmissionWithoutCollector { qubits: Seq<usize>, direction: Direction },
    NoPropagationRule { virtual_type: VirtualType, gate: StandardGate },
    MissingTableEntry { dist: DistKey },
    BodyOnNonBox(Seq<char>),
    ComplexAbsorbedAngle(u64, u64),
    UndefinedAbsorbedAngle,
    OpaqueAbsorbedParameter,
    Annotations(LowerError),
    UnsupportedControlFlow(Seq<char>),
    UnsupportedNestedControlFlow(Seq<char>),
    BoxWithoutBody,
    MergeWouldCycle,
}

impl View for SamplexError {
    type V = ErrorModel;

    open spec fn view(&self) -> ErrorModel {
        match self {
            Self::BoxWithoutOneBody => ErrorModel::BoxWithoutOneBody,
            Self::LiftIntoDeeperScope => ErrorModel::LiftIntoDeeperScope,
            Self::ScopeWithoutBody => ErrorModel::ScopeWithoutBody,
            Self::ScopeWithoutOneBody => ErrorModel::ScopeWithoutOneBody,
            Self::ContentOffItsBoxWires => ErrorModel::ContentOffItsBoxWires,
            Self::DescentIntoBodylessBox => ErrorModel::DescentIntoBodylessBox,
            Self::DuplicateCollectorParams(site) => ErrorModel::DuplicateCollectorParams(site@),
            Self::CollectorNotInTemplate(site) => ErrorModel::CollectorNotInTemplate(site@),
            Self::CollectorsNotInGraph { count, site } => ErrorModel::CollectorsNotInGraph {
                count: *count as nat,
                site: site@,
            },
            Self::EmissionWithoutCollector { qubits, direction } => {
                ErrorModel::EmissionWithoutCollector { qubits: qubits@, direction: *direction }
            },
            Self::NoPropagationRule { virtual_type, gate } => ErrorModel::NoPropagationRule {
                virtual_type: *virtual_type,
                gate: *gate,
            },
            Self::MissingTableEntry { dist } => ErrorModel::MissingTableEntry { dist: *dist },
            Self::BodyOnNonBox(name) => ErrorModel::BodyOnNonBox(name@),
            Self::ComplexAbsorbedAngle(re, im) => ErrorModel::ComplexAbsorbedAngle(
                *re,
                *im,
            ),
            Self::UndefinedAbsorbedAngle => ErrorModel::UndefinedAbsorbedAngle,
            Self::OpaqueAbsorbedParameter => ErrorModel::OpaqueAbsorbedParameter,
            Self::Annotations(error) => ErrorModel::Annotations(*error),
            Self::UnsupportedControlFlow(name) => ErrorModel::UnsupportedControlFlow(name@),
            Self::UnsupportedNestedControlFlow(name) => {
                ErrorModel::UnsupportedNestedControlFlow(name@)
            },
            Self::BoxWithoutBody => ErrorModel::BoxWithoutBody,
            Self::MergeWouldCycle => ErrorModel::MergeWouldCycle,
        }
    }
}

} // verus!
