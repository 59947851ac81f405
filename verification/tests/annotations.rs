//! The annotations on a box, and what they resolve to.

use samplex::annotated_circuit::annotation_kind;
use samplex::annotated_circuit::parse_change_basis_mode;
use samplex::annotated_circuit::parse_decomposition;
use samplex::annotated_circuit::parse_distribution;
use samplex::annotated_circuit::parse_dressing;
use samplex::annotated_circuit::parse_injection_site;
use samplex::annotated_circuit::parse_placement;
use samplex::annotated_circuit::resolve_annotations;
use samplex::annotated_circuit::Annotation;
use samplex::annotated_circuit::AnnotationKind;
use samplex::annotated_circuit::BasisOrigin;
use samplex::annotated_circuit::ChangeBasisMode;
use samplex::annotated_circuit::ChangeBasisSpec;
use samplex::annotated_circuit::DistributionType;
use samplex::annotated_circuit::Dressing;
use samplex::annotated_circuit::ForeignAnnotation;
use samplex::annotated_circuit::InjectLocalCliffordSpec;
use samplex::annotated_circuit::InjectNoiseSpec;
use samplex::annotated_circuit::InjectionSite;
use samplex::annotated_circuit::Placement;
use samplex::annotated_circuit::SynthesizerType;
use samplex::annotated_circuit::TagSpec;
use samplex::annotated_circuit::TwirlSpec;
use samplex::annotated_circuit::NAMESPACE;
use samplex::emission_circuit::Collect;
use samplex::emission_circuit::CollectPart;
use samplex::emission_circuit::Emit;
use samplex::emission_circuit::EmitPart;
use samplex::distributions::DistKey;
use samplex::error::LowerError;
use samplex::partition::Partition;
use samplex::virtual_flow_graph::Direction;
use samplex::virtual_type::VirtualType;

fn twirl(distribution: DistributionType) -> Annotation {
    Annotation::Twirl(TwirlSpec {
        distribution,
        dressing: Dressing::Left,
        decomposition: SynthesizerType::RzSx,
    })
}

fn change_basis(reference: &str, placement: Placement) -> Annotation {
    Annotation::ChangeBasis(ChangeBasisSpec {
        mode: ChangeBasisMode::MeasurePauli,
        reference: reference.to_string(),
        placement,
        decomposition: SynthesizerType::RzSx,
    })
}

fn inject_local_clifford(reference: &str) -> Annotation {
    Annotation::InjectLocalClifford(InjectLocalCliffordSpec {
        reference: reference.to_string(),
        site: InjectionSite::Before,
    })
}

fn inject_noise(modifier: Option<&str>, site: InjectionSite) -> Annotation {
    Annotation::InjectNoise(InjectNoiseSpec {
        reference: "r0".to_string(),
        modifier: modifier.map(|name| name.to_string()),
        site,
    })
}

#[test]
fn test_resolve_twirl_implies_collect() {
    let resolved = resolve_annotations(&[twirl(DistributionType::UniformPauli)]).unwrap();
    assert!(resolved.twirl.is_some());
    assert_eq!(resolved.dressing, Some(Dressing::Left));
    assert!(resolved.synthesizer.is_some());
}

#[test]
fn test_resolve_change_basis_ref_namespacing() {
    let resolved = resolve_annotations(&[change_basis("0", Placement::Start)]).unwrap();
    let cb = resolved.change_basis.unwrap();
    assert_eq!(cb.ref_id, "basis_changes.0");
    assert_eq!(cb.mode, ChangeBasisMode::MeasurePauli);
    assert_eq!(cb.placement, Placement::Start);
}

#[test]
fn test_resolve_inject_local_clifford() {
    // Needs a twirl beside it: an injection happens *to* a twirled box's content.
    let resolved = resolve_annotations(&[
        twirl(DistributionType::UniformPauli),
        inject_local_clifford("c3"),
    ])
    .unwrap();
    let cb = resolved.change_basis.unwrap();
    assert_eq!(cb.mode, ChangeBasisMode::LocalClifford);
    assert_eq!(cb.ref_id, "local_cliffords.c3");
    assert_eq!(cb.placement, Placement::Start);
    assert_eq!(cb.origin, BasisOrigin::InjectLocalClifford);
}

#[test]
fn test_resolve_inject_local_clifford_without_twirl_errors() {
    let err = resolve_annotations(&[inject_local_clifford("c3")]).unwrap_err();
    assert_eq!(err, LowerError::InjectLocalCliffordWithoutTwirl);
}

#[test]
fn test_resolve_change_basis_alone_dresses_by_placement() {
    // The one annotation that stands alone, so the one that has to name its own dressing edge.
    for (placement, expected) in [
        (Placement::Start, Dressing::Left),
        (Placement::End, Dressing::Right),
    ] {
        let resolved = resolve_annotations(&[change_basis("b", placement)]).unwrap();
        assert_eq!(resolved.dressing, Some(expected));
    }
}

#[test]
fn test_a_twirl_names_the_dressing_over_any_placement() {
    let resolved = resolve_annotations(&[
        twirl(DistributionType::UniformPauli),
        change_basis("b", Placement::End),
    ])
    .unwrap();
    // The twirl's own edge wins: that is where its pair sits.
    assert_eq!(resolved.dressing, Some(Dressing::Left));
}

#[test]
fn test_resolve_tag_only_produces_nothing() {
    let resolved = resolve_annotations(&[Annotation::Tag(TagSpec)]).unwrap();
    assert!(resolved.twirl.is_none());
    assert!(resolved.change_basis.is_none());
    assert!(resolved.inject_noise.is_none());
    assert!(resolved.synthesizer.is_none());
    assert!(!resolved.is_emitting());
}

#[test]
fn test_resolve_duplicate_annotation_errors() {
    let err = resolve_annotations(&[
        twirl(DistributionType::UniformPauli),
        twirl(DistributionType::HaarU2),
    ])
    .unwrap_err();
    assert_eq!(err, LowerError::DuplicateAnnotation(AnnotationKind::Twirl));
}

#[test]
fn test_resolve_inject_noise_without_twirl_errors() {
    let err = resolve_annotations(&[inject_noise(None, InjectionSite::Before)]).unwrap_err();
    assert_eq!(err, LowerError::InjectNoiseWithoutTwirl);
}

#[test]
fn test_resolve_inject_noise_with_twirl_ok() {
    let resolved = resolve_annotations(&[
        twirl(DistributionType::UniformPauli),
        inject_noise(Some("m1"), InjectionSite::After),
    ])
    .unwrap();
    let inj = resolved.inject_noise.unwrap();
    assert_eq!(inj.reference, "r0");
    assert_eq!(inj.modifier.as_deref(), Some("m1"));
    assert_eq!(inj.site, InjectionSite::After);
}

#[test]
fn test_resolve_change_basis_conflict_errors() {
    let err = resolve_annotations(&[
        change_basis("0", Placement::Start),
        inject_local_clifford("0"),
    ])
    .unwrap_err();
    assert_eq!(err, LowerError::ChangeBasisConflict);
}

#[test]
fn test_ir1_annotations_share_the_flat_namespace() {
    // One vocabulary, the one a user writes, so one namespace.
    for annotation in [
        twirl(DistributionType::UniformPauli),
        change_basis("0", Placement::Start),
        Annotation::Tag(TagSpec),
        inject_local_clifford("c3"),
        inject_noise(None, InjectionSite::After),
    ] {
        assert_eq!(annotation.namespace(), NAMESPACE);
    }
    assert_eq!(NAMESPACE, "samplex");
}

#[test]
fn test_collect_declares_a_child_namespace() {
    // The *output* vocabulary, so a namespace of its own, but a child of the input one.
    let spec = Annotation::Collect(Collect {
        partition: Partition::singletons(2),
        parts: vec![
            CollectPart {
                synthesizer: SynthesizerType::RzSx,
            },
            CollectPart {
                synthesizer: SynthesizerType::RzSx,
            },
        ],
    });
    assert_eq!(spec.namespace(), "samplex.collect");
    assert!(spec.namespace().starts_with(NAMESPACE));
}

#[test]
fn an_annotation_of_others_is_passed_over() {
    let foreign = || {
        Annotation::Foreign(ForeignAnnotation {
            namespace: "someone.else".to_string(),
            handle: 7,
        })
    };
    let with = resolve_annotations(&[foreign(), twirl(DistributionType::HaarU2), foreign()]);
    let without = resolve_annotations(&[twirl(DistributionType::HaarU2)]);
    assert_eq!(with, without);
    assert_eq!(annotation_kind(&foreign()), None);
    assert_eq!(foreign().namespace(), "someone.else");
    assert_eq!(
        annotation_kind(&twirl(DistributionType::HaarU2)),
        Some(AnnotationKind::Twirl)
    );
}

#[test]
fn refusals_say_what_is_wrong() {
    assert_eq!(
        LowerError::DuplicateAnnotation(AnnotationKind::Twirl).message(),
        "Duplicate annotation type Twirl on a single box."
    );
    assert_eq!(
        LowerError::InjectNoiseWithoutTwirl.message(),
        "InjectNoise requires a Twirl on the same box."
    );
    assert_eq!(
        LowerError::InjectLocalCliffordWithoutTwirl.message(),
        "InjectLocalClifford requires a Twirl on the same box."
    );
    assert_eq!(
        LowerError::ChangeBasisConflict.message(),
        "ChangeBasis and InjectLocalClifford are mutually exclusive on the same box."
    );
}

#[test]
fn words_parse_to_what_they_name() {
    assert_eq!(parse_decomposition("rzrx"), Ok(SynthesizerType::RzRx));
    for distribution in [
        DistributionType::UniformPauli,
        DistributionType::HaarU2,
    ] {
        assert_eq!(parse_distribution(distribution.word()), Ok(distribution));
    }
    for mode in [
        ChangeBasisMode::MeasurePauli,
        ChangeBasisMode::PreparePauli,
        ChangeBasisMode::LocalClifford,
    ] {
        assert_eq!(parse_change_basis_mode(mode.word()), Ok(mode));
    }
    for dressing in [Dressing::Left, Dressing::Right] {
        assert_eq!(parse_dressing(dressing.word()), Ok(dressing));
    }
    for placement in [Placement::Start, Placement::End] {
        assert_eq!(parse_placement(placement.word()), Ok(placement));
    }
    for site in [InjectionSite::Before, InjectionSite::After] {
        assert_eq!(parse_injection_site(site.word()), Ok(site));
    }
    let unknown = parse_dressing("up").unwrap_err();
    assert_eq!(unknown.word, "up");
    assert_eq!(unknown.message(), format!("Unknown {}: 'up'", unknown.what));
}

#[test]
fn placements_and_sites_name_directions() {
    assert_eq!(Direction::from(Placement::Start), Direction::Left);
    assert_eq!(Direction::from(Placement::End), Direction::Right);
    assert_eq!(Direction::from(InjectionSite::Before), Direction::Left);
    assert_eq!(Direction::from(InjectionSite::After), Direction::Right);
}

#[test]
fn an_emission_reads_back_what_it_was_made_of() {
    let emit = Emit {
        direction: Some(Direction::Left),
        partition: Partition::singletons(2),
        parts: vec![
            EmitPart {
                dist: DistKey(3),
                draw: 5,
                adjoint: false,
            },
            EmitPart {
                dist: DistKey(3),
                draw: 6,
                adjoint: true,
            },
        ],
    };
    assert_eq!(emit.name(), "emit");
    assert_eq!(emit.num_qubits(), 2);
    assert_eq!(emit.draws(), vec![5, 6]);
    assert_eq!(emit.adjoints(), vec![false, true]);
    assert_eq!(emit.dist(), DistKey(3));
    assert_eq!(emit.source(None), None);
}

#[test]
fn a_collector_takes_what_its_synthesizer_can_make() {
    let collect = Collect::bare(SynthesizerType::RzSx);
    assert_eq!(collect.synthesizer(), SynthesizerType::RzSx);
    assert!(collect.synthesizes_all(SynthesizerType::RzSx));
    assert!(!collect.synthesizes_all(SynthesizerType::RzRx));
    for group in [VirtualType::Pauli, VirtualType::C1, VirtualType::U2] {
        assert_eq!(
            collect.accepts(group),
            SynthesizerType::RzSx.accepts(group)
        );
    }
}
