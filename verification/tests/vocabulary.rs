//! Gates, virtual types, partitions, distributions and parameters.

use samplex::annotated_circuit::ChangeBasisMode;
use samplex::annotated_circuit::DistributionType;
use samplex::distributions::DistEntry;
use samplex::distributions::DistKey;
use samplex::distributions::DistributionTable;
use samplex::overlap::coarsened;
use samplex::parameters::ParamKey;
use samplex::parameters::ParameterExpression;
use samplex::parameters::ParameterTable;
use samplex::parameters::Symbol;
use samplex::parameters::Value;
use samplex::partition::Partition;
use samplex::partition::PartitionError;
use samplex::standard_gate::StandardGate;
use samplex::virtual_type::propagates;
use samplex::virtual_type::VirtualType;

// --- Virtual types ------------------------------------------------------------------------------

#[test]
fn test_pauli_survives_the_gates_it_is_allowed_to_cross() {
    for gate in [
        StandardGate::H,
        StandardGate::S,
        StandardGate::SX,
        StandardGate::CX,
        StandardGate::CZ,
        StandardGate::ECR,
        StandardGate::RZZ,
    ] {
        assert!(propagates(VirtualType::Pauli, gate), "{gate:?}");
    }
}

#[test]
fn test_pauli_does_not_survive_non_cliffords() {
    for gate in [StandardGate::T, StandardGate::RZ, StandardGate::RX] {
        assert!(!propagates(VirtualType::Pauli, gate), "{gate:?}");
    }
}

#[test]
fn test_u2_only_survives_single_qubit_gates() {
    assert!(propagates(VirtualType::U2, StandardGate::RZ));
    assert!(propagates(VirtualType::U2, StandardGate::H));
    // an entangler takes a local U2 element out of the local group
    assert!(!propagates(VirtualType::U2, StandardGate::CX));
}

#[test]
fn test_c1_matches_the_pauli_gate_set() {
    for gate in [StandardGate::H, StandardGate::CX, StandardGate::RZZ] {
        assert_eq!(
            propagates(VirtualType::C1, gate),
            propagates(VirtualType::Pauli, gate),
            "{gate:?}"
        );
    }
}

// --- Partitions ---------------------------------------------------------------------------------

fn parts(parts: &[&[usize]]) -> Partition {
    Partition::new(parts.iter().map(|part| part.to_vec()).collect()).unwrap()
}

#[test]
fn test_singletons() {
    let partition = Partition::singletons(3);
    assert_eq!(partition.len(), 3);
    assert_eq!(partition.num_qubits(), 3);
    assert!(partition.is_singletons());
    assert!(!partition.is_empty());
    assert_eq!(partition.iter(), &vec![vec![0], vec![1], vec![2]]);
}

#[test]
fn test_whole() {
    let partition = Partition::whole(2);
    assert_eq!(partition.len(), 1);
    assert_eq!(partition.num_qubits(), 2);
    assert!(!partition.is_singletons());
    // A one-qubit joint subsystem is a singleton, and a zero-qubit one does not exist.
    assert!(Partition::whole(1).is_singletons());
    assert!(Partition::whole(0).is_empty());
    assert_eq!(Partition::whole(0).num_qubits(), 0);
}

#[test]
fn test_groups_resolves_indices_against_qubits() {
    // Qubits are read through the item's own list, in the order the part gives, not sorted.
    let partition = parts(&[&[0], &[2, 1]]);
    assert_eq!(partition.groups(&[3, 5, 4]), vec![vec![3], vec![4, 5]]);
    assert_eq!(
        Partition::singletons(3).groups(&[3, 5, 4]),
        vec![vec![3], vec![5], vec![4]]
    );
}

#[test]
fn test_part_order_is_the_callers() {
    // Per-part descriptors are parallel with `iter`, so construction must not reorder or sort.
    let partition = parts(&[&[2, 1], &[0]]);
    assert_eq!(partition.iter(), &vec![vec![2, 1], vec![0]]);
}

#[test]
fn test_new_rejects_what_is_not_a_partition() {
    assert_eq!(
        Partition::new(vec![vec![0], vec![]]).unwrap_err(),
        PartitionError::EmptyPart
    );
    assert_eq!(
        Partition::new(vec![vec![0], vec![0]]).unwrap_err(),
        PartitionError::DuplicateIndex(0)
    );
    // Two parts cover two qubits, so index 2 has nothing to point at.
    assert_eq!(
        Partition::new(vec![vec![0], vec![2]]).unwrap_err(),
        PartitionError::IndexOutOfRange {
            index: 2,
            num_qubits: 2
        }
    );
}

#[test]
fn test_display_shows_the_parts() {
    assert_eq!(parts(&[&[0], &[2, 1]]).to_text(), "[[0], [2, 1]]");
    assert_eq!(
        format!("{:?}", Partition::singletons(2)),
        "Partition([[0], [1]])"
    );
}

#[test]
fn partition_errors_say_what_is_wrong() {
    assert_eq!(
        Partition::new(vec![vec![0], vec![]]).unwrap_err().message(),
        "a part must cover at least one qubit"
    );
    assert_eq!(
        Partition::new(vec![vec![0], vec![0]]).unwrap_err().message(),
        "index 0 appears in more than one part"
    );
    assert_eq!(
        Partition::new(vec![vec![0], vec![2]]).unwrap_err().message(),
        "index 2 is out of range for a partition of 2 qubits"
    );
}

#[test]
fn partitions_side_by_side() {
    let joined = parts(&[&[1, 0]]).beside(&Partition::singletons(2));
    assert_eq!(joined.iter(), &vec![vec![1, 0], vec![2], vec![3]]);
}

#[test]
fn overlapping_groups_coarsen_into_one_part() {
    // 4 joins 2, and 2 joins 0, so the three are one part led by its lowest index.
    let partition = coarsened(6, &vec![vec![4, 2], vec![5, 3], vec![0, 2], vec![]]);
    assert_eq!(partition.iter(), &vec![vec![0, 2, 4], vec![1], vec![3, 5]]);
    // The order the groups are met in does not matter.
    let again = coarsened(6, &vec![vec![0, 2], vec![5, 3], vec![2, 4]]);
    assert_eq!(partition, again);
    // Groups that do not overlap stay apart.
    assert_eq!(
        coarsened(4, &vec![vec![3], vec![1, 2]]).iter(),
        &vec![vec![0], vec![1, 2], vec![3]]
    );
}

// --- Distributions ------------------------------------------------------------------------------

#[test]
fn test_intern_dedups_identical_entries() {
    let mut table = DistributionTable::new();
    let a = table.intern(DistEntry::Distribution(DistributionType::UniformPauli));
    let b = table.intern(DistEntry::Distribution(DistributionType::UniformPauli));
    assert_eq!(a, b);
    assert_eq!(table.len(), 1);
}

#[test]
fn test_intern_distinguishes_distributions() {
    let mut table = DistributionTable::new();
    let a = table.intern(DistEntry::Distribution(DistributionType::UniformPauli));
    let b = table.intern(DistEntry::Distribution(DistributionType::HaarU2));
    assert_ne!(a, b);
    assert_eq!(table.len(), 2);
    assert_eq!(
        table.get(a),
        Some(&DistEntry::Distribution(DistributionType::UniformPauli))
    );
    assert_eq!(
        table.get(b),
        Some(&DistEntry::Distribution(DistributionType::HaarU2))
    );
}

#[test]
fn test_noise_modifiers_are_grouped() {
    let mut table = DistributionTable::new();
    table.intern(DistEntry::Noise {
        reference: "n0".to_string(),
        modifier: Some("m1".to_string()),
    });
    table.intern(DistEntry::Noise {
        reference: "n0".to_string(),
        modifier: Some("m2".to_string()),
    });
    table.intern(DistEntry::Noise {
        reference: "n1".to_string(),
        modifier: None,
    });
    assert_eq!(table.len(), 3);
    let modifiers = table.noise_modifiers(&"n0".to_string()).unwrap();
    assert_eq!(modifiers.len(), 2);
    assert!(modifiers.contains(&"m1".to_string()));
    assert!(modifiers.contains(&"m2".to_string()));
    assert!(table.noise_modifiers(&"n1".to_string()).is_none());
    assert_eq!(table.modified_noise(), vec!["n0".to_string()]);
}

#[test]
fn test_basis_entries_distinguish_mode_and_ref() {
    let mut table = DistributionTable::new();
    let a = table.intern(DistEntry::Basis {
        mode: ChangeBasisMode::MeasurePauli,
        ref_id: "basis_changes.0".to_string(),
    });
    let b = table.intern(DistEntry::Basis {
        mode: ChangeBasisMode::PreparePauli,
        ref_id: "basis_changes.0".to_string(),
    });
    let c = table.intern(DistEntry::Basis {
        mode: ChangeBasisMode::MeasurePauli,
        ref_id: "basis_changes.1".to_string(),
    });
    assert_ne!(a, b);
    assert_ne!(a, c);
    assert_eq!(table.len(), 3);
}

#[test]
fn a_key_gives_back_its_entry_however_many_follow() {
    let mut table = DistributionTable::new();
    assert!(table.is_empty());
    let first = table.intern(DistEntry::Distribution(DistributionType::HaarU2));
    table.intern(DistEntry::Noise {
        reference: "n".to_string(),
        modifier: None,
    });
    assert_eq!(
        table.get(first),
        Some(&DistEntry::Distribution(DistributionType::HaarU2))
    );
    assert_eq!(table.get(DistKey(7)), None);
    table.set_draw_count(first, 3);
    assert_eq!(table.draw_counts(), &[3, 0]);
    assert_eq!(table.labels().len(), 2);
    assert_eq!(table.entries().len(), 2);
    assert_eq!(
        table.entries()[0].virtual_type(),
        VirtualType::U2
    );
}

// --- Parameters ---------------------------------------------------------------------------------

/// A symbol of this name and identity. Two symbols of one name and different identities are two parameters.
fn symbol(name: &str, uuid: u128) -> Symbol {
    Symbol {
        fullname: name.to_string(),
        uuid,
    }
}

fn symbolic(name: &str, uuid: u128) -> ParameterExpression {
    ParameterExpression::from_symbol(symbol(name, uuid))
}

#[test]
fn test_intern_dedups_equal_expressions() {
    let mut table = ParameterTable::new();
    let a = table.intern(symbolic("t", 1));
    // A structurally equal expression, not the same value: equality is by expression.
    let b = table.intern(symbolic("t", 1));
    assert_eq!(a, b);
    assert_eq!(table.len(), 1);
    assert_eq!(table.free_parameters(), vec!["t".to_string()]);
}

#[test]
fn test_intern_distinguishes_expressions() {
    let mut table = ParameterTable::new();
    let a = table.intern(symbolic("t", 1));
    let b = table.intern(symbolic("u", 2));
    assert_ne!(a, b);
    assert_eq!(table.len(), 2);
    assert_eq!(
        table.get(a).map(|expr| expr.text.clone()),
        Some("t".to_string())
    );
    assert!(table.get(ParamKey(2)).is_none());
}

#[test]
fn test_free_is_sorted_regardless_of_intern_order() {
    let mut forwards = ParameterTable::new();
    forwards.intern(symbolic("alpha", 1));
    forwards.intern(symbolic("beta", 2));
    forwards.intern(symbolic("gamma", 3));

    let mut backwards = ParameterTable::new();
    backwards.intern(symbolic("gamma", 3));
    backwards.intern(symbolic("beta", 2));
    backwards.intern(symbolic("alpha", 1));

    assert_eq!(
        forwards.free_parameters(),
        vec!["alpha".to_string(), "beta".to_string(), "gamma".to_string()]
    );
    assert_eq!(forwards.free_parameters(), backwards.free_parameters());
}

#[test]
fn test_a_multi_symbol_expression_contributes_every_symbol() {
    let mut table = ParameterTable::new();
    table.intern(ParameterExpression {
        text: "x + y".to_string(),
        symbols: vec![symbol("y", 1), symbol("x", 2)],
        value: Value::Undefined,
    });
    assert_eq!(table.len(), 1);
    assert_eq!(
        table.free_parameters(),
        vec!["x".to_string(), "y".to_string()]
    );
}

#[test]
fn test_free_dedups_across_entries() {
    // Two expressions over the same symbol are two entries but one thing to bind.
    let mut table = ParameterTable::new();
    table.intern(symbolic("t", 1));
    table.intern(ParameterExpression {
        text: "t**2".to_string(),
        symbols: vec![symbol("t", 1)],
        value: Value::Undefined,
    });
    assert_eq!(table.len(), 2);
    assert_eq!(table.free_parameters(), vec!["t".to_string()]);
}

#[test]
fn test_same_name_different_identity_both_appear() {
    let mut table = ParameterTable::new();
    table.intern(symbolic("t", 1));
    table.intern(symbolic("t", 2));
    assert_eq!(table.len(), 2);
    assert_eq!(table.free().len(), 2);
}

#[test]
fn test_empty_table_has_nothing_to_bind() {
    let table = ParameterTable::new();
    assert!(table.is_empty());
    assert!(table.free_parameters().is_empty());
}

// --- Readouts -----------------------------------------------------------------------------------

#[test]
fn tables_read_out_their_entries_in_key_order() {
    let mut entries = DistributionTable::new();
    assert_eq!(entries.to_text(), "DistributionTable()");
    entries.intern(DistEntry::Distribution(DistributionType::UniformPauli));
    entries.intern(DistEntry::Noise {
        reference: "n0".to_string(),
        modifier: Some("m1".to_string()),
    });
    assert_eq!(
        entries.to_text(),
        "DistributionTable(0: UniformPauli, 1: Noise(n0, m1))"
    );

    let mut angles = ParameterTable::new();
    assert_eq!(angles.to_text(), "ParameterTable()");
    angles.intern(symbolic("beta", 2));
    angles.intern(symbolic("alpha", 1));
    assert_eq!(angles.texts(), vec!["beta".to_string(), "alpha".to_string()]);
    assert_eq!(angles.to_text(), "ParameterTable(0: beta, 1: alpha)");
}
