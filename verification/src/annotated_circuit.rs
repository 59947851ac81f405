//! The vocabulary a user writes: the annotations on a box, and what they resolve to.
//!
//! `Twirl`, `ChangeBasis`, `InjectLocalClifford`, `InjectNoise` and `Tag` are the annotations;
//! [`resolve_annotations`] folds a box's set of them into one [`ResolvedBox`]. The shared enums the
//! later stages borrow live here too, so nothing downstream imports vocabulary from a pass.

use vstd::prelude::*;
use vstd::string::*;

use crate::collections::IndexSet;
use crate::emission_circuit::Collect;
use crate::emission_circuit::CollectModel;
use crate::error::LowerError;
use crate::text;
use crate::virtual_flow_graph::Direction;
use crate::virtual_type::VirtualType;

verus! {

/// The namespace every annotation of this vocabulary declares. Flat, because these are one vocabulary:
/// the one a user writes. The crate's own *output* annotation, `Collect`, sits under a child namespace
/// instead.
pub const NAMESPACE: &'static str = "samplex";

/// A word that names no value of the kind it was read as.
#[derive(Debug, Clone, PartialEq, Eq)]
pub struct UnknownWord {
    /// What the word was read as.
    pub what: &'static str,
    /// The word itself.
    pub word: String,
}

impl UnknownWord {
    /// The message a caller is shown.
    pub fn message(&self) -> (message: String)
        ensures
            message@ == "Unknown "@ + self.what@ + ": '"@ + self.word@ + "'"@,
    {
        let mut message = String::from_str("Unknown ");
        message.append(self.what);
        message.append(": '");
        message.append(self.word.as_str());
        message.append("'");
        message
    }
}

/// How a collector's virtual gates are synthesized.
#[derive(Debug, Clone, Copy, PartialEq, Eq, Structural, Hash)]
pub enum SynthesizerType {
    RzSx,
    RzRx,
}

impl SynthesizerType {
    /// The identifier a label shows.
    pub open spec fn ident_text(self) -> Seq<char> {
        match self {
            Self::RzSx => "RzSx"@,
            Self::RzRx => "RzRx"@,
        }
    }

    /// The word a user writes for this value.
    pub open spec fn word_text(self) -> Seq<char> {
        match self {
            Self::RzSx => "rzsx"@,
            Self::RzRx => "rzrx"@,
        }
    }

    /// The identifier a label shows.
    pub fn ident(&self) -> (ident: &'static str)
        ensures
            ident@ == self.ident_text(),
    {
        match self {
            Self::RzSx => "RzSx",
            Self::RzRx => "RzRx",
        }
    }

    /// The word a user writes for this value.
    pub fn word(&self) -> (word: &'static str)
        ensures
            word@ == self.word_text(),
    {
        match self {
            Self::RzSx => "rzsx",
            Self::RzRx => "rzrx",
        }
    }
}

/// Read a decomposition. The only words accepted are the ones [`SynthesizerType::word`] gives.
pub fn parse_decomposition(word: &str) -> (result: Result<SynthesizerType, UnknownWord>)
    ensures
        result matches Ok(value) ==> value.word_text() == word@,
        result matches Err(unknown) ==> unknown.what@ == "decomposition"@ && unknown.word@ == word@,
        result is Ok <==> exists|value: SynthesizerType| value.word_text() == word@,
{
    proof {
        assert(SynthesizerType::RzSx.word_text() == "rzsx"@);
        assert(SynthesizerType::RzRx.word_text() == "rzrx"@);
    }
    if text::same(word, "rzsx") {
        Ok(SynthesizerType::RzSx)
    } else if text::same(word, "rzrx") {
        Ok(SynthesizerType::RzRx)
    } else {
        Err(UnknownWord { what: "decomposition", word: String::from_str(word) })
    }
}

/// What a twirl draws from.
#[derive(Debug, Clone, Copy, PartialEq, Eq, Structural, Hash)]
pub enum DistributionType {
    UniformPauli,
    BalancedUniformPauli,
    UniformPauliSubset,
    UniformC1,
    UniformLocalC1,
    HaarU2,
}

impl DistributionType {
    /// The identifier a label shows.
    pub open spec fn ident_text(self) -> Seq<char> {
        match self {
            Self::UniformPauli => "UniformPauli"@,
            Self::BalancedUniformPauli => "BalancedUniformPauli"@,
            Self::UniformPauliSubset => "UniformPauliSubset"@,
            Self::UniformC1 => "UniformC1"@,
            Self::UniformLocalC1 => "UniformLocalC1"@,
            Self::HaarU2 => "HaarU2"@,
        }
    }

    /// The word a user writes for this value.
    pub open spec fn word_text(self) -> Seq<char> {
        match self {
            Self::UniformPauli => "uniform_pauli"@,
            Self::BalancedUniformPauli => "balanced_uniform_pauli"@,
            Self::UniformPauliSubset => "uniform_pauli_subset"@,
            Self::UniformC1 => "uniform_c1"@,
            Self::UniformLocalC1 => "uniform_local_c1"@,
            Self::HaarU2 => "haar_u2"@,
        }
    }

    /// The identifier a label shows.
    pub fn ident(&self) -> (ident: &'static str)
        ensures
            ident@ == self.ident_text(),
    {
        match self {
            Self::UniformPauli => "UniformPauli",
            Self::BalancedUniformPauli => "BalancedUniformPauli",
            Self::UniformPauliSubset => "UniformPauliSubset",
            Self::UniformC1 => "UniformC1",
            Self::UniformLocalC1 => "UniformLocalC1",
            Self::HaarU2 => "HaarU2",
        }
    }

    /// The word a user writes for this value.
    pub fn word(&self) -> (word: &'static str)
        ensures
            word@ == self.word_text(),
    {
        match self {
            Self::UniformPauli => "uniform_pauli",
            Self::BalancedUniformPauli => "balanced_uniform_pauli",
            Self::UniformPauliSubset => "uniform_pauli_subset",
            Self::UniformC1 => "uniform_c1",
            Self::UniformLocalC1 => "uniform_local_c1",
            Self::HaarU2 => "haar_u2",
        }
    }
}

/// Read a distribution. The only words accepted are the ones [`DistributionType::word`] gives.
pub fn parse_distribution(word: &str) -> (result: Result<DistributionType, UnknownWord>)
    ensures
        result matches Ok(value) ==> value.word_text() == word@,
        result matches Err(unknown) ==> unknown.what@ == "distribution"@ && unknown.word@ == word@,
        result is Ok <==> exists|value: DistributionType| value.word_text() == word@,
{
    proof {
        assert(DistributionType::UniformPauli.word_text() == "uniform_pauli"@);
        assert(DistributionType::BalancedUniformPauli.word_text() == "balanced_uniform_pauli"@);
        assert(DistributionType::UniformPauliSubset.word_text() == "uniform_pauli_subset"@);
        assert(DistributionType::UniformC1.word_text() == "uniform_c1"@);
        assert(DistributionType::UniformLocalC1.word_text() == "uniform_local_c1"@);
        assert(DistributionType::HaarU2.word_text() == "haar_u2"@);
    }
    if text::same(word, "uniform_pauli") {
        Ok(DistributionType::UniformPauli)
    } else if text::same(word, "balanced_uniform_pauli") {
        Ok(DistributionType::BalancedUniformPauli)
    } else if text::same(word, "uniform_pauli_subset") {
        Ok(DistributionType::UniformPauliSubset)
    } else if text::same(word, "uniform_c1") {
        Ok(DistributionType::UniformC1)
    } else if text::same(word, "uniform_local_c1") {
        Ok(DistributionType::UniformLocalC1)
    } else if text::same(word, "haar_u2") {
        Ok(DistributionType::HaarU2)
    } else {
        Err(UnknownWord { what: "distribution", word: String::from_str(word) })
    }
}

/// Which kind of frame a basis change goes to.
#[derive(Debug, Clone, Copy, PartialEq, Eq, Structural, Hash)]
pub enum ChangeBasisMode {
    PreparePauli,
    MeasurePauli,
    LocalClifford,
}

impl ChangeBasisMode {
    /// The identifier a label shows.
    pub open spec fn ident_text(self) -> Seq<char> {
        match self {
            Self::PreparePauli => "PreparePauli"@,
            Self::MeasurePauli => "MeasurePauli"@,
            Self::LocalClifford => "LocalClifford"@,
        }
    }

    /// The word a user writes for this value.
    pub open spec fn word_text(self) -> Seq<char> {
        match self {
            Self::PreparePauli => "prepare_pauli"@,
            Self::MeasurePauli => "measure_pauli"@,
            Self::LocalClifford => "local_clifford"@,
        }
    }

    /// The identifier a label shows.
    pub fn ident(&self) -> (ident: &'static str)
        ensures
            ident@ == self.ident_text(),
    {
        match self {
            Self::PreparePauli => "PreparePauli",
            Self::MeasurePauli => "MeasurePauli",
            Self::LocalClifford => "LocalClifford",
        }
    }

    /// The word a user writes for this value.
    pub fn word(&self) -> (word: &'static str)
        ensures
            word@ == self.word_text(),
    {
        match self {
            Self::PreparePauli => "prepare_pauli",
            Self::MeasurePauli => "measure_pauli",
            Self::LocalClifford => "local_clifford",
        }
    }
}

/// Read a change basis mode. The only words accepted are the ones [`ChangeBasisMode::word`] gives.
pub fn parse_change_basis_mode(word: &str) -> (result: Result<ChangeBasisMode, UnknownWord>)
    ensures
        result matches Ok(value) ==> value.word_text() == word@,
        result matches Err(unknown) ==> unknown.what@ == "change basis mode"@ && unknown.word@ == word@,
        result is Ok <==> exists|value: ChangeBasisMode| value.word_text() == word@,
{
    proof {
        assert(ChangeBasisMode::PreparePauli.word_text() == "prepare_pauli"@);
        assert(ChangeBasisMode::MeasurePauli.word_text() == "measure_pauli"@);
        assert(ChangeBasisMode::LocalClifford.word_text() == "local_clifford"@);
    }
    if text::same(word, "prepare_pauli") {
        Ok(ChangeBasisMode::PreparePauli)
    } else if text::same(word, "measure_pauli") {
        Ok(ChangeBasisMode::MeasurePauli)
    } else if text::same(word, "local_clifford") {
        Ok(ChangeBasisMode::LocalClifford)
    } else {
        Err(UnknownWord { what: "change basis mode", word: String::from_str(word) })
    }
}

/// The edge a box's absorbable run folds to.
#[derive(Debug, Clone, Copy, PartialEq, Eq, Structural, Hash)]
pub enum Dressing {
    Left,
    Right,
}

impl Dressing {
    /// The identifier a label shows.
    pub open spec fn ident_text(self) -> Seq<char> {
        match self {
            Self::Left => "Left"@,
            Self::Right => "Right"@,
        }
    }

    /// The word a user writes for this value.
    pub open spec fn word_text(self) -> Seq<char> {
        match self {
            Self::Left => "left"@,
            Self::Right => "right"@,
        }
    }

    /// The identifier a label shows.
    pub fn ident(&self) -> (ident: &'static str)
        ensures
            ident@ == self.ident_text(),
    {
        match self {
            Self::Left => "Left",
            Self::Right => "Right",
        }
    }

    /// The word a user writes for this value.
    pub fn word(&self) -> (word: &'static str)
        ensures
            word@ == self.word_text(),
    {
        match self {
            Self::Left => "left",
            Self::Right => "right",
        }
    }
}

/// Read a dressing. The only words accepted are the ones [`Dressing::word`] gives.
pub fn parse_dressing(word: &str) -> (result: Result<Dressing, UnknownWord>)
    ensures
        result matches Ok(value) ==> value.word_text() == word@,
        result matches Err(unknown) ==> unknown.what@ == "dressing"@ && unknown.word@ == word@,
        result is Ok <==> exists|value: Dressing| value.word_text() == word@,
{
    proof {
        assert(Dressing::Left.word_text() == "left"@);
        assert(Dressing::Right.word_text() == "right"@);
    }
    if text::same(word, "left") {
        Ok(Dressing::Left)
    } else if text::same(word, "right") {
        Ok(Dressing::Right)
    } else {
        Err(UnknownWord { what: "dressing", word: String::from_str(word) })
    }
}

/// The end of a box a basis change stands at.
#[derive(Debug, Clone, Copy, PartialEq, Eq, Structural, Hash)]
pub enum Placement {
    Start,
    End,
}

impl Placement {
    /// The identifier a label shows.
    pub open spec fn ident_text(self) -> Seq<char> {
        match self {
            Self::Start => "Start"@,
            Self::End => "End"@,
        }
    }

    /// The word a user writes for this value.
    pub open spec fn word_text(self) -> Seq<char> {
        match self {
            Self::Start => "start"@,
            Self::End => "end"@,
        }
    }

    /// The identifier a label shows.
    pub fn ident(&self) -> (ident: &'static str)
        ensures
            ident@ == self.ident_text(),
    {
        match self {
            Self::Start => "Start",
            Self::End => "End",
        }
    }

    /// The word a user writes for this value.
    pub fn word(&self) -> (word: &'static str)
        ensures
            word@ == self.word_text(),
    {
        match self {
            Self::Start => "start",
            Self::End => "end",
        }
    }
}

/// Read a placement. The only words accepted are the ones [`Placement::word`] gives.
pub fn parse_placement(word: &str) -> (result: Result<Placement, UnknownWord>)
    ensures
        result matches Ok(value) ==> value.word_text() == word@,
        result matches Err(unknown) ==> unknown.what@ == "placement"@ && unknown.word@ == word@,
        result is Ok <==> exists|value: Placement| value.word_text() == word@,
{
    proof {
        assert(Placement::Start.word_text() == "start"@);
        assert(Placement::End.word_text() == "end"@);
    }
    if text::same(word, "start") {
        Ok(Placement::Start)
    } else if text::same(word, "end") {
        Ok(Placement::End)
    } else {
        Err(UnknownWord { what: "placement", word: String::from_str(word) })
    }
}

/// The side of a box's content an injection happens on.
#[derive(Debug, Clone, Copy, PartialEq, Eq, Structural, Hash)]
pub enum InjectionSite {
    Before,
    After,
}

impl InjectionSite {
    /// The identifier a label shows.
    pub open spec fn ident_text(self) -> Seq<char> {
        match self {
            Self::Before => "Before"@,
            Self::After => "After"@,
        }
    }

    /// The word a user writes for this value.
    pub open spec fn word_text(self) -> Seq<char> {
        match self {
            Self::Before => "before"@,
            Self::After => "after"@,
        }
    }

    /// The identifier a label shows.
    pub fn ident(&self) -> (ident: &'static str)
        ensures
            ident@ == self.ident_text(),
    {
        match self {
            Self::Before => "Before",
            Self::After => "After",
        }
    }

    /// The word a user writes for this value.
    pub fn word(&self) -> (word: &'static str)
        ensures
            word@ == self.word_text(),
    {
        match self {
            Self::Before => "before",
            Self::After => "after",
        }
    }
}

/// Read a injection site. The only words accepted are the ones [`InjectionSite::word`] gives.
pub fn parse_injection_site(word: &str) -> (result: Result<InjectionSite, UnknownWord>)
    ensures
        result matches Ok(value) ==> value.word_text() == word@,
        result matches Err(unknown) ==> unknown.what@ == "injection site"@ && unknown.word@ == word@,
        result is Ok <==> exists|value: InjectionSite| value.word_text() == word@,
{
    proof {
        assert(InjectionSite::Before.word_text() == "before"@);
        assert(InjectionSite::After.word_text() == "after"@);
    }
    if text::same(word, "before") {
        Ok(InjectionSite::Before)
    } else if text::same(word, "after") {
        Ok(InjectionSite::After)
    } else {
        Err(UnknownWord { what: "injection site", word: String::from_str(word) })
    }
}

impl SynthesizerType {
    /// Whether a synthesizer can express a virtual gate of this type. Both are full Euler
    /// decompositions, so both express all of them.
    pub open spec fn accepts_type(self, virtual_type: VirtualType) -> bool {
        true
    }

    /// Whether a synthesizer can express a virtual gate of this type.
    pub fn accepts(&self, virtual_type: VirtualType) -> (accepted: bool)
        ensures
            accepted == self.accepts_type(virtual_type),
    {
        match self {
            Self::RzSx | Self::RzRx => true,
        }
    }
}

impl DistributionType {
    /// The group the draws of this distribution belong to.
    pub open spec fn group(self) -> VirtualType {
        match self {
            Self::UniformPauli | Self::BalancedUniformPauli | Self::UniformPauliSubset => {
                VirtualType::Pauli
            },
            Self::UniformC1 | Self::UniformLocalC1 => VirtualType::C1,
            Self::HaarU2 => VirtualType::U2,
        }
    }

    /// The group the draws of this distribution belong to.
    pub fn virtual_type(&self) -> (virtual_type: VirtualType)
        ensures
            virtual_type == self.group(),
    {
        match self {
            Self::UniformPauli | Self::BalancedUniformPauli | Self::UniformPauliSubset => {
                VirtualType::Pauli
            },
            Self::UniformC1 | Self::UniformLocalC1 => VirtualType::C1,
            Self::HaarU2 => VirtualType::U2,
        }
    }
}

impl ChangeBasisMode {
    /// The group the frame changes of this mode belong to.
    pub open spec fn group(self) -> VirtualType {
        match self {
            Self::PreparePauli | Self::MeasurePauli => VirtualType::Pauli,
            Self::LocalClifford => VirtualType::C1,
        }
    }

    /// The group the frame changes of this mode belong to.
    pub fn virtual_type(&self) -> (virtual_type: VirtualType)
        ensures
            virtual_type == self.group(),
    {
        match self {
            Self::PreparePauli | Self::MeasurePauli => VirtualType::Pauli,
            Self::LocalClifford => VirtualType::C1,
        }
    }
}

/// Which annotation a [`ResolvedBasis`] came from.
///
/// `ChangeBasis` and `InjectLocalClifford` resolve to the same thing except for where the emission is
/// placed.
#[derive(Debug, Clone, Copy, PartialEq, Eq, Structural, Hash)]
pub enum BasisOrigin {
    /// A frame change for the box as a whole. Sits at the box's outer boundary.
    ChangeBasis,
    /// A local-Clifford injection. Flanks the hard content.
    InjectLocalClifford,
}

/// Annotation type discriminant.
#[derive(Debug, Clone, Copy, PartialEq, Eq, Structural, Hash)]
pub enum AnnotationKind {
    Twirl,
    ChangeBasis,
    InjectLocalClifford,
    InjectNoise,
    Tag,
}

impl AnnotationKind {
    /// The identifier an error message shows.
    pub open spec fn ident_text(self) -> Seq<char> {
        match self {
            Self::Twirl => "Twirl"@,
            Self::ChangeBasis => "ChangeBasis"@,
            Self::InjectLocalClifford => "InjectLocalClifford"@,
            Self::InjectNoise => "InjectNoise"@,
            Self::Tag => "Tag"@,
        }
    }

    /// The identifier an error message shows.
    pub fn ident(&self) -> (ident: &'static str)
        ensures
            ident@ == self.ident_text(),
    {
        match self {
            Self::Twirl => "Twirl",
            Self::ChangeBasis => "ChangeBasis",
            Self::InjectLocalClifford => "InjectLocalClifford",
            Self::InjectNoise => "InjectNoise",
            Self::Tag => "Tag",
        }
    }

    /// A number of its own for each kind.
    spec fn number(self) -> usize {
        match self {
            Self::Twirl => 0,
            Self::ChangeBasis => 1,
            Self::InjectLocalClifford => 2,
            Self::InjectNoise => 3,
            Self::Tag => 4,
        }
    }

    fn index(&self) -> (index: usize)
        ensures
            index == self.number(),
    {
        match self {
            Self::Twirl => 0,
            Self::ChangeBasis => 1,
            Self::InjectLocalClifford => 2,
            Self::InjectNoise => 3,
            Self::Tag => 4,
        }
    }
}

/// A twirl annotation.
///
/// The `group` (e.g. Pauli, local-C1) is resolved to a [`DistributionType`] at construction time.
#[derive(Debug, Clone, Copy, PartialEq, Eq, Structural)]
pub struct TwirlSpec {
    pub distribution: DistributionType,
    pub dressing: Dressing,
    pub decomposition: SynthesizerType,
}

/// A basis-change annotation.
#[derive(Debug, PartialEq, Eq)]
pub struct ChangeBasisSpec {
    pub mode: ChangeBasisMode,
    pub reference: String,
    pub placement: Placement,
    pub decomposition: SynthesizerType,
}

impl Clone for ChangeBasisSpec {
    fn clone(&self) -> (copy: Self)
        ensures
            copy == *self,
    {
        ChangeBasisSpec {
            mode: self.mode,
            reference: self.reference.clone(),
            placement: self.placement,
            decomposition: self.decomposition,
        }
    }
}

/// An inject-local-Clifford annotation (a local-Clifford frame change).
#[derive(Debug, PartialEq, Eq)]
pub struct InjectLocalCliffordSpec {
    pub reference: String,
    pub site: InjectionSite,
}

impl Clone for InjectLocalCliffordSpec {
    fn clone(&self) -> (copy: Self)
        ensures
            copy == *self,
    {
        InjectLocalCliffordSpec { reference: self.reference.clone(), site: self.site }
    }
}

/// A noise-injection annotation.
#[derive(Debug, PartialEq, Eq)]
pub struct InjectNoiseSpec {
    pub reference: String,
    pub modifier: Option<String>,
    pub site: InjectionSite,
}

impl Clone for InjectNoiseSpec {
    fn clone(&self) -> (copy: Self)
        ensures
            copy == *self,
    {
        InjectNoiseSpec {
            reference: self.reference.clone(),
            modifier: match &self.modifier {
                Some(modifier) => Some(modifier.clone()),
                None => None,
            },
            site: self.site,
        }
    }
}

/// A tag annotation. Carries nothing: it marks a box without asking for any emission.
#[derive(Debug, Clone, Copy, PartialEq, Eq, Structural)]
pub struct TagSpec;

/// An annotation from outside the vocabulary, known by its namespace and by a handle to whoever owns
/// it.
#[derive(Debug, PartialEq, Eq)]
pub struct ForeignAnnotation {
    pub namespace: String,
    pub handle: u64,
}

impl Clone for ForeignAnnotation {
    fn clone(&self) -> (copy: Self)
        ensures
            copy == *self,
    {
        ForeignAnnotation { namespace: self.namespace.clone(), handle: self.handle }
    }
}

/// An annotation on a box, whether it is one of ours or a stranger's.
#[derive(Debug, PartialEq, Eq)]
pub enum Annotation {
    Twirl(TwirlSpec),
    ChangeBasis(ChangeBasisSpec),
    InjectLocalClifford(InjectLocalCliffordSpec),
    InjectNoise(InjectNoiseSpec),
    Tag(TagSpec),
    Collect(Collect),
    Foreign(ForeignAnnotation),
}

/// What an annotation says.
pub enum AnnotationModel {
    Twirl(TwirlSpec),
    ChangeBasis(ChangeBasisSpec),
    InjectLocalClifford(InjectLocalCliffordSpec),
    InjectNoise(InjectNoiseSpec),
    Tag(TagSpec),
    Collect(CollectModel),
    Foreign(ForeignAnnotation),
}

impl View for Annotation {
    type V = AnnotationModel;

    open spec fn view(&self) -> AnnotationModel {
        match self {
            Annotation::Twirl(spec) => AnnotationModel::Twirl(*spec),
            Annotation::ChangeBasis(spec) => AnnotationModel::ChangeBasis(*spec),
            Annotation::InjectLocalClifford(spec) => AnnotationModel::InjectLocalClifford(*spec),
            Annotation::InjectNoise(spec) => AnnotationModel::InjectNoise(*spec),
            Annotation::Tag(spec) => AnnotationModel::Tag(*spec),
            Annotation::Collect(spec) => AnnotationModel::Collect(spec@),
            Annotation::Foreign(foreign) => AnnotationModel::Foreign(*foreign),
        }
    }
}

impl Clone for Annotation {
    fn clone(&self) -> (copy: Self)
        ensures
            copy@ == self@,
    {
        match self {
            Annotation::Twirl(spec) => Annotation::Twirl(*spec),
            Annotation::ChangeBasis(spec) => Annotation::ChangeBasis(spec.clone()),
            Annotation::InjectLocalClifford(spec) => Annotation::InjectLocalClifford(spec.clone()),
            Annotation::InjectNoise(spec) => Annotation::InjectNoise(spec.clone()),
            Annotation::Tag(spec) => Annotation::Tag(*spec),
            Annotation::Collect(spec) => Annotation::Collect(spec.clone()),
            Annotation::Foreign(foreign) => Annotation::Foreign(foreign.clone()),
        }
    }
}

/// The namespace a collector declares. A child of the input namespace, so a single handler for that
/// one still catches it by parent fallback, while a handler that only cares about what the crate
/// *emitted* can name it exactly.
pub const COLLECT_NAMESPACE: &'static str = "samplex.collect";

impl AnnotationModel {
    /// Which of our annotations this is, or `None` if it is not one a user of the vocabulary writes.
    pub open spec fn kind(self) -> Option<AnnotationKind> {
        match self {
            AnnotationModel::Twirl(_) => Some(AnnotationKind::Twirl),
            AnnotationModel::ChangeBasis(_) => Some(AnnotationKind::ChangeBasis),
            AnnotationModel::InjectLocalClifford(_) => Some(AnnotationKind::InjectLocalClifford),
            AnnotationModel::InjectNoise(_) => Some(AnnotationKind::InjectNoise),
            AnnotationModel::Tag(_) => Some(AnnotationKind::Tag),
            AnnotationModel::Collect(_) => None,
            AnnotationModel::Foreign(_) => None,
        }
    }
}

impl Annotation {
    /// The namespace this annotation declares.
    pub fn namespace(&self) -> (namespace: &str)
        ensures
            namespace@ == (match self {
                Annotation::Collect(_) => COLLECT_NAMESPACE@,
                Annotation::Foreign(foreign) => foreign.namespace@,
                _ => NAMESPACE@,
            }),
    {
        match self {
            Annotation::Collect(_) => COLLECT_NAMESPACE,
            Annotation::Foreign(foreign) => foreign.namespace.as_str(),
            _ => NAMESPACE,
        }
    }
}

/// Which of our annotations this is, or `None` if it is not one a user of the vocabulary writes.
///
/// The crate's only classifier over annotations: it names the ones in the vocabulary and stays silent
/// about the rest, which is what lets a foreign annotation ride through untouched.
pub fn annotation_kind(annotation: &Annotation) -> (kind: Option<AnnotationKind>)
    ensures
        kind == annotation@.kind(),
{
    match annotation {
        Annotation::Twirl(_) => Some(AnnotationKind::Twirl),
        Annotation::ChangeBasis(_) => Some(AnnotationKind::ChangeBasis),
        Annotation::InjectLocalClifford(_) => Some(AnnotationKind::InjectLocalClifford),
        Annotation::InjectNoise(_) => Some(AnnotationKind::InjectNoise),
        Annotation::Tag(_) => Some(AnnotationKind::Tag),
        Annotation::Collect(_) => None,
        Annotation::Foreign(_) => None,
    }
}

/// The direction a placement names: the start of a box is its left.
pub open spec fn placement_direction(placement: Placement) -> Direction {
    match placement {
        Placement::Start => Direction::Left,
        Placement::End => Direction::Right,
    }
}

/// The direction an injection site names: before the content is its left.
pub open spec fn site_direction(site: InjectionSite) -> Direction {
    match site {
        InjectionSite::Before => Direction::Left,
        InjectionSite::After => Direction::Right,
    }
}

impl From<Placement> for Direction {
    fn from(placement: Placement) -> (direction: Self) {
        match placement {
            Placement::Start => Direction::Left,
            Placement::End => Direction::Right,
        }
    }
}

impl vstd::std_specs::convert::FromSpecImpl<Placement> for Direction {
    open spec fn obeys_from_spec() -> bool {
        true
    }

    open spec fn from_spec(placement: Placement) -> Self {
        placement_direction(placement)
    }
}

impl From<InjectionSite> for Direction {
    fn from(site: InjectionSite) -> (direction: Self) {
        match site {
            InjectionSite::Before => Direction::Left,
            InjectionSite::After => Direction::Right,
        }
    }
}

impl vstd::std_specs::convert::FromSpecImpl<InjectionSite> for Direction {
    open spec fn obeys_from_spec() -> bool {
        true
    }

    open spec fn from_spec(site: InjectionSite) -> Self {
        site_direction(site)
    }
}

/// A basis change, after resolution.
#[derive(Debug, Clone, PartialEq, Eq)]
pub struct ResolvedBasis {
    pub origin: BasisOrigin,
    pub mode: ChangeBasisMode,
    pub ref_id: String,
    pub placement: Placement,
}

/// What a resolved basis change says.
pub struct ResolvedBasisModel {
    pub origin: BasisOrigin,
    pub mode: ChangeBasisMode,
    pub ref_id: Seq<char>,
    pub placement: Placement,
}

impl View for ResolvedBasis {
    type V = ResolvedBasisModel;

    open spec fn view(&self) -> ResolvedBasisModel {
        ResolvedBasisModel {
            origin: self.origin,
            mode: self.mode,
            ref_id: self.ref_id@,
            placement: self.placement,
        }
    }
}

/// What a single annotated box resolves to.
#[derive(Debug, Clone, PartialEq, Eq)]
pub struct ResolvedBox {
    pub twirl: Option<TwirlSpec>,
    pub change_basis: Option<ResolvedBasis>,
    pub inject_noise: Option<InjectNoiseSpec>,
    pub synthesizer: Option<SynthesizerType>,
    pub dressing: Option<Dressing>,
}

/// What a resolved box says.
pub struct ResolvedBoxModel {
    pub twirl: Option<TwirlSpec>,
    pub change_basis: Option<ResolvedBasisModel>,
    pub inject_noise: Option<InjectNoiseSpec>,
    pub synthesizer: Option<SynthesizerType>,
    pub dressing: Option<Dressing>,
}

impl View for ResolvedBox {
    type V = ResolvedBoxModel;

    open spec fn view(&self) -> ResolvedBoxModel {
        ResolvedBoxModel {
            twirl: self.twirl,
            change_basis: match self.change_basis {
                Some(basis) => Some(basis@),
                None => None,
            },
            inject_noise: self.inject_noise,
            synthesizer: self.synthesizer,
            dressing: self.dressing,
        }
    }
}

impl Default for ResolvedBox {
    fn default() -> (resolved: Self)
        ensures
            resolved.twirl is None,
            resolved.change_basis is None,
            resolved.inject_noise is None,
            resolved.synthesizer is None,
            resolved.dressing is None,
    {
        ResolvedBox {
            twirl: None,
            change_basis: None,
            inject_noise: None,
            synthesizer: None,
            dressing: None,
        }
    }
}

impl ResolvedBoxModel {
    /// Whether the box produces any emissions at all.
    pub open spec fn emits(self) -> bool {
        self.twirl is Some || self.change_basis is Some || self.inject_noise is Some
    }
}

impl ResolvedBox {
    /// Whether this box produces any emissions at all. A `Tag`-only or unannotated box does not.
    pub fn is_emitting(&self) -> (emitting: bool)
        ensures
            emitting == self@.emits(),
    {
        self.twirl.is_some() || self.change_basis.is_some() || self.inject_noise.is_some()
    }
}

/// What a list of annotations says, one by one.
pub open spec fn annotations_model(annotations: Seq<Annotation>) -> Seq<AnnotationModel> {
    annotations.map_values(|annotation: Annotation| annotation@)
}

/// Whether an annotation of this kind is among them.
pub open spec fn declares(annotations: Seq<AnnotationModel>, kind: AnnotationKind) -> bool {
    exists|i: int| 0 <= i < annotations.len() && (#[trigger] annotations[i]).kind() == Some(kind)
}

/// The first kind that comes up a second time, reading in order.
pub open spec fn first_repeat(annotations: Seq<AnnotationModel>) -> Option<AnnotationKind>
    decreases annotations.len(),
{
    if annotations.len() == 0 {
        None
    } else {
        match first_repeat(annotations.drop_last()) {
            Some(kind) => Some(kind),
            None => match annotations.last().kind() {
                Some(kind) if declares(annotations.drop_last(), kind) => Some(kind),
                _ => None,
            },
        }
    }
}

/// Why a box's annotations do not go together, the first rule broken being the one reported.
pub open spec fn refusal(annotations: Seq<AnnotationModel>) -> Option<LowerError> {
    if first_repeat(annotations) is Some {
        Some(LowerError::DuplicateAnnotation(first_repeat(annotations)->0))
    } else if declares(annotations, AnnotationKind::ChangeBasis) && declares(
        annotations,
        AnnotationKind::InjectLocalClifford,
    ) {
        Some(LowerError::ChangeBasisConflict)
    } else if declares(annotations, AnnotationKind::InjectNoise) && !declares(
        annotations,
        AnnotationKind::Twirl,
    ) {
        Some(LowerError::InjectNoiseWithoutTwirl)
    } else if declares(annotations, AnnotationKind::InjectLocalClifford) && !declares(
        annotations,
        AnnotationKind::Twirl,
    ) {
        Some(LowerError::InjectLocalCliffordWithoutTwirl)
    } else {
        None
    }
}

/// The twirl among the annotations. At most one, once nothing is repeated.
pub open spec fn declared_twirl(annotations: Seq<AnnotationModel>) -> Option<TwirlSpec>
    decreases annotations.len(),
{
    if annotations.len() == 0 {
        None
    } else {
        match annotations.last() {
            AnnotationModel::Twirl(spec) => Some(spec),
            _ => declared_twirl(annotations.drop_last()),
        }
    }
}

/// The noise injection among the annotations.
pub open spec fn declared_noise(annotations: Seq<AnnotationModel>) -> Option<InjectNoiseSpec>
    decreases annotations.len(),
{
    if annotations.len() == 0 {
        None
    } else {
        match annotations.last() {
            AnnotationModel::InjectNoise(spec) => Some(spec),
            _ => declared_noise(annotations.drop_last()),
        }
    }
}

/// The synthesizer the basis change among the annotations names.
pub open spec fn declared_basis_synthesizer(annotations: Seq<AnnotationModel>) -> Option<
    SynthesizerType,
>
    decreases annotations.len(),
{
    if annotations.len() == 0 {
        None
    } else {
        match annotations.last() {
            AnnotationModel::ChangeBasis(spec) => Some(spec.decomposition),
            _ => declared_basis_synthesizer(annotations.drop_last()),
        }
    }
}

/// The frame change among the annotations, whichever of the two kinds asks for it.
pub open spec fn declared_basis(annotations: Seq<AnnotationModel>) -> Option<ResolvedBasisModel>
    decreases annotations.len(),
{
    if annotations.len() == 0 {
        None
    } else {
        match annotations.last() {
            AnnotationModel::ChangeBasis(spec) => Some(
                ResolvedBasisModel {
                    origin: BasisOrigin::ChangeBasis,
                    mode: spec.mode,
                    ref_id: "basis_changes."@ + spec.reference@,
                    placement: spec.placement,
                },
            ),
            AnnotationModel::InjectLocalClifford(spec) => Some(
                ResolvedBasisModel {
                    origin: BasisOrigin::InjectLocalClifford,
                    mode: ChangeBasisMode::LocalClifford,
                    ref_id: "local_cliffords."@ + spec.reference@,
                    placement: match spec.site {
                        InjectionSite::Before => Placement::Start,
                        InjectionSite::After => Placement::End,
                    },
                },
            ),
            _ => declared_basis(annotations.drop_last()),
        }
    }
}

/// What annotations that go together resolve to.
///
/// A twirl names the dressing outright, since the dressing edge is where its pair sits; a frame change
/// without one names it by its placement. A twirl names the synthesizer, and a `ChangeBasis` does where
/// there is no twirl to.
pub open spec fn resolution(annotations: Seq<AnnotationModel>) -> ResolvedBoxModel {
    let twirl = declared_twirl(annotations);
    let change_basis = declared_basis(annotations);
    ResolvedBoxModel {
        twirl,
        change_basis,
        inject_noise: declared_noise(annotations),
        synthesizer: match twirl {
            Some(spec) => Some(spec.decomposition),
            None => declared_basis_synthesizer(annotations),
        },
        dressing: match twirl {
            Some(spec) => Some(spec.dressing),
            None => match change_basis {
                Some(basis) => Some(
                    match basis.placement {
                        Placement::Start => Dressing::Left,
                        Placement::End => Dressing::Right,
                    },
                ),
                None => None,
            },
        },
    }
}

/// The numbers of the kinds declared.
spec fn numbers_of(annotations: Seq<AnnotationModel>) -> Set<usize> {
    Set::new(|n: usize| exists|kind: AnnotationKind| #[trigger]
        declares(annotations, kind) && kind.number() == n)
}

proof fn lemma_declares_push(annotations: Seq<AnnotationModel>, kind: AnnotationKind)
    requires
        annotations.len() > 0,
    ensures
        declares(annotations, kind) <==> declares(annotations.drop_last(), kind)
            || annotations.last().kind() == Some(kind),
{
    let front = annotations.drop_last();
    if declares(front, kind) {
        let i = choose|i: int| 0 <= i < front.len() && (#[trigger] front[i]).kind() == Some(kind);
        assert(annotations[i].kind() == Some(kind));
    }
    if annotations.last().kind() == Some(kind) {
        assert(annotations[annotations.len() - 1].kind() == Some(kind));
    }
    if declares(annotations, kind) {
        let i = choose|i: int|
            0 <= i < annotations.len() && (#[trigger] annotations[i]).kind() == Some(kind);
        if i < front.len() {
            assert(front[i].kind() == Some(kind));
        }
    }
}

proof fn lemma_first_repeat_prefix(annotations: Seq<AnnotationModel>, k: int)
    requires
        0 <= k <= annotations.len(),
        first_repeat(annotations.take(k)) is Some,
    ensures
        first_repeat(annotations) == first_repeat(annotations.take(k)),
    decreases annotations.len() - k,
{
    if k == annotations.len() {
        assert(annotations.take(k) =~= annotations);
    } else {
        assert(annotations.take(k + 1).drop_last() =~= annotations.take(k));
        lemma_first_repeat_prefix(annotations, k + 1);
    }
}

/// Resolve a box's annotations, applying the vocabulary's validation rules.
pub fn resolve_annotations(annotations: &[Annotation]) -> (result: Result<ResolvedBox, LowerError>)
    ensures
        match refusal(annotations_model(annotations@)) {
            Some(error) => result == Err::<ResolvedBox, LowerError>(error),
            None => result matches Ok(resolved) && resolved@ == resolution(
                annotations_model(annotations@),
            ),
        },
{
    let ghost model = annotations_model(annotations@);
    // A membership test only, never walked, so no ordering of the set can leak downstream.
    let mut seen = IndexSet::new();
    let mut i: usize = 0;
    while i < annotations.len()
        invariant
            i <= annotations.len(),
            model == annotations_model(annotations@),
            seen@ == numbers_of(model.take(i as int)),
            first_repeat(model.take(i as int)) is None,
        decreases annotations.len() - i,
    {
        let ghost front = model.take(i as int);
        let ghost next = model.take(i + 1);
        proof {
            assert(next.drop_last() =~= front);
            assert(next.last() == annotations@[i as int]@);
        }
        // A foreign annotation is not a duplicate of anything: two of them on one box is fine.
        if let Some(kind) = annotation_kind(&annotations[i]) {
            let fresh = seen.insert(kind.index());
            proof {
                assert(!fresh <==> declares(front, kind)) by {
                    if numbers_of(front).contains(kind.number()) {
                        let other = choose|other: AnnotationKind| #[trigger]
                            declares(front, other) && other.number() == kind.number();
                        assert(other == kind);
                    }
                }
            }
            if !fresh {
                proof {
                    lemma_first_repeat_prefix(model, i + 1);
                }
                return Err(LowerError::DuplicateAnnotation(kind));
            }
        }
        proof {
            assert forall|n: usize| seen@.contains(n) <==> numbers_of(next).contains(n) by {
                assert forall|kind: AnnotationKind| #[trigger]
                    declares(next, kind) <==> declares(front, kind) || next.last().kind() == Some(
                        kind,
                    ) by {
                    lemma_declares_push(next, kind);
                }
                if numbers_of(next).contains(n) {
                    let kind = choose|kind: AnnotationKind| #[trigger]
                        declares(next, kind) && kind.number() == n;
                    assert(declares(front, kind) || next.last().kind() == Some(kind));
                }
                if numbers_of(front).contains(n) {
                    let kind = choose|kind: AnnotationKind| #[trigger]
                        declares(front, kind) && kind.number() == n;
                    assert(declares(next, kind));
                }
                if next.last().kind() is Some && next.last().kind()->0.number() == n {
                    assert(declares(next, next.last().kind()->0));
                }
            }
            assert(seen@ =~= numbers_of(next));
        }
        i += 1;
    }
    proof {
        assert(model.take(i as int) =~= model);
        assert forall|kind: AnnotationKind| #[trigger]
            declares(model, kind) <==> seen@.contains(kind.number()) by {
            if seen@.contains(kind.number()) {
                let other = choose|other: AnnotationKind| #[trigger]
                    declares(model, other) && other.number() == kind.number();
                assert(other == kind);
            }
        }
    }
    let has_twirl = seen.contains(AnnotationKind::Twirl.index());
    let has_basis = seen.contains(AnnotationKind::ChangeBasis.index());
    let has_clifford = seen.contains(AnnotationKind::InjectLocalClifford.index());
    let has_noise = seen.contains(AnnotationKind::InjectNoise.index());
    if has_basis && has_clifford {
        return Err(LowerError::ChangeBasisConflict);
    }
    // Both injections happen *to* a twirled box's content, sitting just outside its twirl point, so
    // neither means anything without one. A `ChangeBasis` is the only annotation that stands alone: it
    // names a frame change for the box as a whole.
    if has_noise && !has_twirl {
        return Err(LowerError::InjectNoiseWithoutTwirl);
    }
    if has_clifford && !has_twirl {
        return Err(LowerError::InjectLocalCliffordWithoutTwirl);
    }
    let mut resolved = ResolvedBox::default();
    let mut basis_synthesizer: Option<SynthesizerType> = None;
    let mut k: usize = 0;
    while k < annotations.len()
        invariant
            k <= annotations.len(),
            model == annotations_model(annotations@),
            resolved.twirl == declared_twirl(model.take(k as int)),
            resolved@.change_basis == declared_basis(model.take(k as int)),
            resolved.inject_noise == declared_noise(model.take(k as int)),
            basis_synthesizer == declared_basis_synthesizer(model.take(k as int)),
            resolved.dressing is None,
            resolved.synthesizer is None,
        decreases annotations.len() - k,
    {
        proof {
            assert(model.take(k + 1).drop_last() =~= model.take(k as int));
            assert(model.take(k + 1).last() == annotations@[k as int]@);
        }
        match &annotations[k] {
            Annotation::Twirl(twirl) => {
                resolved.twirl = Some(*twirl);
            },
            Annotation::ChangeBasis(spec) => {
                let mut ref_id = String::from_str("basis_changes.");
                ref_id.append(spec.reference.as_str());
                basis_synthesizer = Some(spec.decomposition);
                resolved.change_basis = Some(
                    ResolvedBasis {
                        origin: BasisOrigin::ChangeBasis,
                        mode: spec.mode,
                        ref_id,
                        placement: spec.placement,
                    },
                );
            },
            Annotation::InjectLocalClifford(spec) => {
                let mut ref_id = String::from_str("local_cliffords.");
                ref_id.append(spec.reference.as_str());
                resolved.change_basis = Some(
                    ResolvedBasis {
                        origin: BasisOrigin::InjectLocalClifford,
                        mode: ChangeBasisMode::LocalClifford,
                        ref_id,
                        placement: match spec.site {
                            InjectionSite::Before => Placement::Start,
                            InjectionSite::After => Placement::End,
                        },
                    },
                );
            },
            Annotation::InjectNoise(spec) => {
                resolved.inject_noise = Some(spec.clone());
            },
            _ => {},
        }
        k += 1;
    }
    proof {
        assert(model.take(k as int) =~= model);
    }
    resolved.dressing = match &resolved.twirl {
        Some(twirl) => Some(twirl.dressing),
        None => match &resolved.change_basis {
            Some(basis) => Some(
                match basis.placement {
                    Placement::Start => Dressing::Left,
                    Placement::End => Dressing::Right,
                },
            ),
            None => None,
        },
    };
    // Only `Twirl` and `ChangeBasis` name a synthesizer; `InjectLocalClifford` does not, which is part
    // of why it needs a `Twirl` beside it.
    resolved.synthesizer = match &resolved.twirl {
        Some(twirl) => Some(twirl.decomposition),
        None => basis_synthesizer,
    };
    Ok(resolved)
}

proof fn lemma_declared_iff(annotations: Seq<AnnotationModel>)
    ensures
        declared_twirl(annotations) is Some <==> declares(annotations, AnnotationKind::Twirl),
        declared_noise(annotations) is Some <==> declares(annotations, AnnotationKind::InjectNoise),
        declared_basis_synthesizer(annotations) is Some <==> declares(
            annotations,
            AnnotationKind::ChangeBasis,
        ),
        declared_basis(annotations) is Some <==> declares(annotations, AnnotationKind::ChangeBasis)
            || declares(annotations, AnnotationKind::InjectLocalClifford),
    decreases annotations.len(),
{
    if annotations.len() > 0 {
        lemma_declared_iff(annotations.drop_last());
        lemma_declares_push(annotations, AnnotationKind::Twirl);
        lemma_declares_push(annotations, AnnotationKind::InjectNoise);
        lemma_declares_push(annotations, AnnotationKind::ChangeBasis);
        lemma_declares_push(annotations, AnnotationKind::InjectLocalClifford);
    }
}

/// Every box that emits names the synthesizer its collectors use and the edge its dressing sits at, so
/// a consumer never needs a fallback for either.
pub proof fn lemma_emitting_box_is_fully_named(annotations: Seq<AnnotationModel>)
    requires
        refusal(annotations) is None,
        resolution(annotations).emits(),
    ensures
        resolution(annotations).synthesizer is Some,
        resolution(annotations).dressing is Some,
{
    lemma_declared_iff(annotations);
}

/// Noise and local Cliffords are injected into twirled boxes only.
pub proof fn lemma_injection_needs_a_twirl(annotations: Seq<AnnotationModel>)
    requires
        refusal(annotations) is None,
        declares(annotations, AnnotationKind::InjectNoise) || declares(
            annotations,
            AnnotationKind::InjectLocalClifford,
        ),
    ensures
        resolution(annotations).twirl is Some,
{
    lemma_declared_iff(annotations);
}

/// An annotation from outside the vocabulary changes nothing about how a box resolves, wherever in
/// the list it stands.
pub proof fn lemma_foreign_annotation_is_ignored(
    before: Seq<AnnotationModel>,
    stranger: AnnotationModel,
    after: Seq<AnnotationModel>,
)
    requires
        stranger.kind() is None,
    ensures
        refusal(before + seq![stranger] + after) == refusal(before + after),
        resolution(before + seq![stranger] + after) == resolution(before + after),
{
    lemma_stranger(before, stranger, after);
    let with = before + seq![stranger] + after;
    let without = before + after;
    assert forall|kind: AnnotationKind| #[trigger] declares(with, kind) == declares(without, kind) by {
        lemma_stranger_declares(before, stranger, after, kind);
    }
    lemma_stranger_declares(before, stranger, after, AnnotationKind::Twirl);
    lemma_stranger_declares(before, stranger, after, AnnotationKind::InjectNoise);
    lemma_stranger_declares(before, stranger, after, AnnotationKind::ChangeBasis);
    lemma_stranger_declares(before, stranger, after, AnnotationKind::InjectLocalClifford);
}

proof fn lemma_stranger_declares(
    before: Seq<AnnotationModel>,
    stranger: AnnotationModel,
    after: Seq<AnnotationModel>,
    kind: AnnotationKind,
)
    requires
        stranger.kind() is None,
    ensures
        declares(before + seq![stranger] + after, kind) == declares(before + after, kind),
    decreases after.len(),
{
    let with = before + seq![stranger] + after;
    let without = before + after;
    if after.len() == 0 {
        assert(with.drop_last() =~= before);
        assert(without =~= before);
        lemma_declares_push(with, kind);
    } else {
        lemma_stranger_declares(before, stranger, after.drop_last(), kind);
        assert(with.drop_last() =~= before + seq![stranger] + after.drop_last());
        assert(without.drop_last() =~= before + after.drop_last());
        lemma_declares_push(with, kind);
        lemma_declares_push(without, kind);
    }
}

proof fn lemma_stranger(
    before: Seq<AnnotationModel>,
    stranger: AnnotationModel,
    after: Seq<AnnotationModel>,
)
    requires
        stranger.kind() is None,
    ensures
        ({
            let with = before + seq![stranger] + after;
            let without = before + after;
            &&& first_repeat(with) == first_repeat(without)
            &&& declared_twirl(with) == declared_twirl(without)
            &&& declared_noise(with) == declared_noise(without)
            &&& declared_basis(with) == declared_basis(without)
            &&& declared_basis_synthesizer(with) == declared_basis_synthesizer(without)
        }),
    decreases after.len(),
{
    let with = before + seq![stranger] + after;
    let without = before + after;
    if after.len() == 0 {
        assert(with.drop_last() =~= before);
        assert(with.last() == stranger);
        assert(without =~= before);
    } else {
        lemma_stranger(before, stranger, after.drop_last());
        assert(with.drop_last() =~= before + seq![stranger] + after.drop_last());
        assert(without.drop_last() =~= before + after.drop_last());
        if after.last().kind() is Some {
            lemma_stranger_declares(before, stranger, after.drop_last(), after.last().kind()->0);
        }
    }
}

/// The annotations that are of the vocabulary, in order.
pub open spec fn known(annotations: Seq<AnnotationModel>) -> Seq<AnnotationModel>
    decreases annotations.len(),
{
    if annotations.len() == 0 {
        Seq::empty()
    } else if annotations.last().kind() is Some {
        known(annotations.drop_last()).push(annotations.last())
    } else {
        known(annotations.drop_last())
    }
}

/// Whether no two annotations are of one kind.
spec fn kinds_differ(annotations: Seq<AnnotationModel>) -> bool {
    forall|i: int, j: int|
        0 <= i < j < annotations.len() && (#[trigger] annotations[i]).kind() is Some ==> (
        #[trigger] annotations[j]).kind() != annotations[i].kind()
}

proof fn lemma_kinds_differ_push(annotations: Seq<AnnotationModel>)
    requires
        annotations.len() > 0,
    ensures
        kinds_differ(annotations) <==> kinds_differ(annotations.drop_last()) && (
        annotations.last().kind() is Some ==> !declares(
            annotations.drop_last(),
            annotations.last().kind()->0,
        )),
{
    let front = annotations.drop_last();
    let last = annotations.len() - 1;
    if kinds_differ(annotations) {
        assert forall|i: int, j: int| 0 <= i < j < front.len() && (#[trigger] front[i]).kind() is Some implies (
        #[trigger] front[j]).kind() != front[i].kind() by {
            assert(annotations[i] == front[i] && annotations[j] == front[j]);
        }
        if annotations.last().kind() is Some && declares(front, annotations.last().kind()->0) {
            let i = choose|i: int|
                0 <= i < front.len() && (#[trigger] front[i]).kind() == Some(
                    annotations.last().kind()->0,
                );
            assert(annotations[i].kind() is Some && annotations[last].kind() == annotations[i].kind());
        }
    }
    if kinds_differ(front) && (annotations.last().kind() is Some ==> !declares(
        front,
        annotations.last().kind()->0,
    )) {
        assert forall|i: int, j: int|
            0 <= i < j < annotations.len() && (#[trigger] annotations[i]).kind() is Some implies (
        #[trigger] annotations[j]).kind() != annotations[i].kind() by {
            assert(annotations[i] == front[i]);
            if j < last {
                assert(annotations[j] == front[j]);
            }
        }
    }
}

proof fn lemma_no_repeat(annotations: Seq<AnnotationModel>)
    ensures
        first_repeat(annotations) is None <==> kinds_differ(annotations),
    decreases annotations.len(),
{
    if annotations.len() > 0 {
        lemma_no_repeat(annotations.drop_last());
        lemma_kinds_differ_push(annotations);
    }
}

proof fn lemma_known(annotations: Seq<AnnotationModel>)
    ensures
        forall|x: AnnotationModel| #[trigger]
            known(annotations).contains(x) <==> annotations.contains(x) && x.kind() is Some,
        kinds_differ(annotations) <==> kinds_differ(known(annotations)),
        forall|kind: AnnotationKind| #[trigger]
            declares(known(annotations), kind) <==> declares(annotations, kind),
    decreases annotations.len(),
{
    if annotations.len() > 0 {
        let front = annotations.drop_last();
        let last = annotations.last();
        let before = known(front);
        let after = known(annotations);
        lemma_known(front);
        assert forall|x: AnnotationModel| annotations.contains(x) <==> front.contains(x) || x == last by {
            if front.contains(x) {
                assert(annotations[front.index_of(x)] == x);
            }
            assert(annotations[annotations.len() - 1] == last);
            if annotations.contains(x) {
                let k = annotations.index_of(x);
                if k < front.len() {
                    assert(front[k] == x);
                }
            }
        }
        lemma_kinds_differ_push(annotations);
        assert forall|kind: AnnotationKind| #[trigger]
            declares(annotations, kind) <==> declares(front, kind) || last.kind() == Some(kind) by {
            lemma_declares_push(annotations, kind);
        }
        if last.kind() is Some {
            assert(after.drop_last() =~= before);
            assert(after.last() == last);
            lemma_kinds_differ_push(after);
            assert forall|x: AnnotationModel| after.contains(x) <==> before.contains(x) || x == last by {
                if before.contains(x) {
                    assert(after[before.index_of(x)] == x);
                }
                assert(after[before.len() as int] == last);
                if after.contains(x) {
                    let k = after.index_of(x);
                    if k < before.len() {
                        assert(before[k] == x);
                    }
                }
            }
            assert forall|kind: AnnotationKind| #[trigger]
                declares(after, kind) <==> declares(annotations, kind) by {
                lemma_declares_push(after, kind);
                assert(declares(before, kind) <==> declares(front, kind));
            }
        }
    }
}

/// What is declared is what is listed, where no kind is listed twice.
proof fn lemma_declared_is_listed(annotations: Seq<AnnotationModel>, i: int)
    requires
        kinds_differ(annotations),
        0 <= i < annotations.len(),
    ensures
        annotations[i] matches AnnotationModel::Twirl(spec) ==> declared_twirl(annotations) == Some(
            spec,
        ),
        annotations[i] matches AnnotationModel::InjectNoise(spec) ==> declared_noise(annotations)
            == Some(spec),
        annotations[i] matches AnnotationModel::ChangeBasis(spec) ==> declared_basis_synthesizer(
            annotations,
        ) == Some(spec.decomposition),
        annotations[i] is ChangeBasis && !declares(annotations, AnnotationKind::InjectLocalClifford)
            ==> declared_basis(annotations) == declared_basis(seq![annotations[i]]),
        annotations[i] is InjectLocalClifford && !declares(annotations, AnnotationKind::ChangeBasis)
            ==> declared_basis(annotations) == declared_basis(seq![annotations[i]]),
    decreases annotations.len(),
{
    let front = annotations.drop_last();
    let last = annotations.len() - 1;
    lemma_kinds_differ_push(annotations);
    lemma_declares_push(annotations, AnnotationKind::InjectLocalClifford);
    lemma_declares_push(annotations, AnnotationKind::ChangeBasis);
    assert(seq![annotations[i]].last() == annotations[i]);
    if i < last {
        assert(front[i] == annotations[i]);
        lemma_declared_is_listed(front, i);
        if annotations[i].kind() is Some {
            assert(annotations[last].kind() != annotations[i].kind());
        }
    }
}

/// How a box resolves does not depend on the order of its annotations, nor on those from outside the vocabulary: two
/// lists with the same annotations of the vocabulary are refused alike, or resolve alike. Only which of several
/// repeated kinds is named depends on the order.
pub proof fn lemma_annotation_order_does_not_matter(
    left: Seq<AnnotationModel>,
    right: Seq<AnnotationModel>,
)
    requires
        known(left).to_multiset() == known(right).to_multiset(),
    ensures
        refusal(left) is None <==> refusal(right) is None,
        refusal(left) is None ==> resolution(left) == resolution(right),
        first_repeat(left) is None <==> first_repeat(right) is None,
        first_repeat(left) is None ==> refusal(left) == refusal(right),
{
    lemma_same_repeats(left, right);
    lemma_same_repeats(right, left);
    lemma_known(left);
    lemma_known(right);
    broadcast use vstd::seq_lib::group_to_multiset_ensures;

    assert forall|x: AnnotationModel| known(left).contains(x) <==> known(right).contains(x) by {
        assert(known(left).contains(x) <==> known(left).to_multiset().count(x) > 0);
        assert(known(right).contains(x) <==> known(right).to_multiset().count(x) > 0);
    }
    assert forall|kind: AnnotationKind| #[trigger]
        declares(left, kind) <==> declares(right, kind) by {
        assert(declares(known(left), kind) <==> declares(left, kind));
        assert(declares(known(right), kind) <==> declares(right, kind));
        if declares(known(left), kind) {
            lemma_same_kinds(known(left), known(right), kind);
        }
        if declares(known(right), kind) {
            lemma_same_kinds(known(right), known(left), kind);
        }
    }
    assert(declares(left, AnnotationKind::Twirl) <==> declares(right, AnnotationKind::Twirl));
    assert(declares(left, AnnotationKind::ChangeBasis) <==> declares(
        right,
        AnnotationKind::ChangeBasis,
    ));
    assert(declares(left, AnnotationKind::InjectLocalClifford) <==> declares(
        right,
        AnnotationKind::InjectLocalClifford,
    ));
    assert(declares(left, AnnotationKind::InjectNoise) <==> declares(
        right,
        AnnotationKind::InjectNoise,
    ));
    if refusal(left) is None {
        lemma_no_repeat(left);
        lemma_no_repeat(right);
        lemma_declared_iff(left);
        lemma_declared_iff(right);
        assert forall|i: int| 0 <= i < left.len() && (#[trigger] left[i]).kind() is Some implies right.contains(
            left[i],
        ) by {
            assert(left.contains(left[i]));
            assert(known(left).contains(left[i]));
            assert(known(right).contains(left[i]));
        }
        if declares(left, AnnotationKind::Twirl) {
            lemma_same_declared(left, right, AnnotationKind::Twirl);
        }
        if declares(left, AnnotationKind::ChangeBasis) {
            lemma_same_declared(left, right, AnnotationKind::ChangeBasis);
        }
        if declares(left, AnnotationKind::InjectLocalClifford) {
            lemma_same_declared(left, right, AnnotationKind::InjectLocalClifford);
        }
        if declares(left, AnnotationKind::InjectNoise) {
            lemma_same_declared(left, right, AnnotationKind::InjectNoise);
        }
        assert(resolution(left) =~= resolution(right));
    }
}

/// What one list declares of a kind, the other does.
proof fn lemma_same_declared(
    left: Seq<AnnotationModel>,
    right: Seq<AnnotationModel>,
    kind: AnnotationKind,
)
    requires
        kinds_differ(left),
        kinds_differ(right),
        forall|i: int|
            0 <= i < left.len() && (#[trigger] left[i]).kind() is Some ==> right.contains(left[i]),
        declares(left, AnnotationKind::ChangeBasis) <==> declares(right, AnnotationKind::ChangeBasis),
        declares(left, AnnotationKind::InjectLocalClifford) <==> declares(
            right,
            AnnotationKind::InjectLocalClifford,
        ),
        !(declares(left, AnnotationKind::ChangeBasis) && declares(
            left,
            AnnotationKind::InjectLocalClifford,
        )),
        declares(left, kind),
    ensures
        kind == AnnotationKind::Twirl ==> declared_twirl(left) == declared_twirl(right),
        kind == AnnotationKind::InjectNoise ==> declared_noise(left) == declared_noise(right),
        kind == AnnotationKind::ChangeBasis ==> declared_basis_synthesizer(left)
            == declared_basis_synthesizer(right),
        kind == AnnotationKind::ChangeBasis || kind == AnnotationKind::InjectLocalClifford
            ==> declared_basis(left) == declared_basis(right),
{
    let i = choose|i: int| 0 <= i < left.len() && (#[trigger] left[i]).kind() == Some(kind);
    assert(right.contains(left[i]));
    let j = right.index_of(left[i]);
    assert(right[j] == left[i]);
    lemma_declared_is_listed(left, i);
    lemma_declared_is_listed(right, j);
}

proof fn lemma_same_kinds(
    left: Seq<AnnotationModel>,
    right: Seq<AnnotationModel>,
    kind: AnnotationKind,
)
    requires
        forall|x: AnnotationModel| left.contains(x) ==> #[trigger] right.contains(x),
        declares(left, kind),
    ensures
        declares(right, kind),
{
    let i = choose|i: int| 0 <= i < left.len() && (#[trigger] left[i]).kind() == Some(kind);
    assert(left.contains(left[i]));
    assert(right.contains(left[i]));
    assert(right[right.index_of(left[i])].kind() == Some(kind));
}

/// Where one list repeats no kind, neither does the other.
proof fn lemma_same_repeats(left: Seq<AnnotationModel>, right: Seq<AnnotationModel>)
    requires
        known(left).to_multiset() == known(right).to_multiset(),
    ensures
        first_repeat(left) is None ==> first_repeat(right) is None,
{
    broadcast use vstd::seq_lib::group_to_multiset_ensures;

    lemma_no_repeat(left);
    lemma_no_repeat(right);
    lemma_known(left);
    lemma_known(right);
    if kinds_differ(left) {
        let one = known(left);
        let other = known(right);
        assert(one.no_duplicates()) by {
            assert forall|i: int, j: int| 0 <= i < one.len() && 0 <= j < one.len() && i != j implies one[i]
                != one[j] by {
                assert(one.contains(one[i]) && one.contains(one[j]));
                if i < j {
                    assert(one[j].kind() != one[i].kind());
                } else {
                    assert(one[i].kind() != one[j].kind());
                }
            }
        }
        one.lemma_multiset_has_no_duplicates();
        other.lemma_multiset_has_no_duplicates_conv();
        assert forall|i: int, j: int| 0 <= i < j < other.len() && (#[trigger] other[i]).kind() is Some implies (
        #[trigger] other[j]).kind() != other[i].kind() by {
            assert(other.contains(other[i]) && other.contains(other[j]));
            assert(one.to_multiset().count(other[i]) > 0 && one.to_multiset().count(other[j]) > 0);
            assert(one.contains(other[i]) && one.contains(other[j]));
            let p = one.index_of(other[i]);
            let q = one.index_of(other[j]);
            assert(one[p] == other[i] && one[q] == other[j]);
            assert(other[i] != other[j]);
            if p < q {
                assert(one[q].kind() != one[p].kind());
            } else {
                assert(one[p].kind() != one[q].kind());
            }
        }
    }
}

/// The namespace of the crate's own annotation is a child of the one its users write.
pub proof fn lemma_collect_namespace_is_a_child()
    ensures
        COLLECT_NAMESPACE@ == NAMESPACE@ + ".collect"@,
{
    reveal_strlit("samplex.collect");
    reveal_strlit("samplex");
    reveal_strlit(".collect");
    assert(COLLECT_NAMESPACE@ =~= NAMESPACE@ + ".collect"@);
}

} // verus!
