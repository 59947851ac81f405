//! The algebraic type of a virtual gate.
//!
//! An object rather than part of any one representation: the annotation vocabulary resolves *to* it,
//! the emission circuit carries it on each emission, and the sampling graph infers it along edges.

use vstd::prelude::*;

use crate::standard_gate::StandardGate;

verus! {

/// The group a virtual gate belongs to, which determines how it composes.
#[derive(Debug, Clone, Copy, PartialEq, Eq, Structural, Hash)]
pub enum VirtualType {
    Pauli,
    C1,
    U2,
    Z2,
}

impl VirtualType {
    /// The lowercase name used in readouts.
    pub open spec fn name_text(self) -> Seq<char> {
        match self {
            Self::Pauli => "pauli"@,
            Self::C1 => "c1"@,
            Self::U2 => "u2"@,
            Self::Z2 => "z2"@,
        }
    }

    /// The identifier a rendered graph labels its edges with.
    pub open spec fn ident_text(self) -> Seq<char> {
        match self {
            Self::Pauli => "Pauli"@,
            Self::C1 => "C1"@,
            Self::U2 => "U2"@,
            Self::Z2 => "Z2"@,
        }
    }

    /// The lowercase name used in readouts.
    pub fn name(&self) -> (name: &'static str)
        ensures
            name@ == self.name_text(),
    {
        match self {
            Self::Pauli => "pauli",
            Self::C1 => "c1",
            Self::U2 => "u2",
            Self::Z2 => "z2",
        }
    }

    /// The identifier a rendered graph labels its edges with.
    pub fn ident(&self) -> (ident: &'static str)
        ensures
            ident@ == self.ident_text(),
    {
        match self {
            Self::Pauli => "Pauli",
            Self::C1 => "C1",
            Self::U2 => "U2",
            Self::Z2 => "Z2",
        }
    }
}

/// The single-qubit Clifford gates with a propagation rule.
pub open spec fn clifford_1q(gate: StandardGate) -> bool {
    ||| gate is H
    ||| gate is S
    ||| gate is Sdg
    ||| gate is SX
    ||| gate is SXdg
    ||| gate is X
    ||| gate is Y
    ||| gate is Z
}

/// The two-qubit entanglers with a propagation rule. `RZZ` is among them as a fractional entangler
/// under Pauli twirling.
pub open spec fn clifford_2q(gate: StandardGate) -> bool {
    ||| gate is CX
    ||| gate is CZ
    ||| gate is CY
    ||| gate is ECR
    ||| gate is Swap
    ||| gate is DCX
    ||| gate is RZZ
}

/// Whether a virtual gate of this type stays in its group when conjugated by `gate`.
pub open spec fn propagates_spec(virtual_type: VirtualType, gate: StandardGate) -> bool {
    match virtual_type {
        // A `U2` element conjugated by a single-qubit gate is still a `U2` element, but an entangler
        // takes it out of the local group.
        VirtualType::U2 => gate.width() == 1,
        VirtualType::Pauli | VirtualType::C1 | VirtualType::Z2 => {
            clifford_1q(gate) || clifford_2q(gate)
        },
    }
}

/// Whether a virtual gate of this type stays in its group when conjugated by `gate`.
///
/// The real limit on which circuits are supported. A gate on a propagation path with no rule for that
/// emission's type must be a hard error, not a silently wrong answer. Deliberately an allowlist, so
/// adding gate support is a conscious act.
pub fn propagates(virtual_type: VirtualType, gate: StandardGate) -> (accepted: bool)
    ensures
        accepted == propagates_spec(virtual_type, gate),
{
    let clifford_1q = matches!(
        gate,
        StandardGate::H
            | StandardGate::S
            | StandardGate::Sdg
            | StandardGate::SX
            | StandardGate::SXdg
            | StandardGate::X
            | StandardGate::Y
            | StandardGate::Z
    );
    let clifford_2q = matches!(
        gate,
        StandardGate::CX
            | StandardGate::CZ
            | StandardGate::CY
            | StandardGate::ECR
            | StandardGate::Swap
            | StandardGate::DCX
            | StandardGate::RZZ
    );
    match virtual_type {
        VirtualType::Pauli | VirtualType::Z2 => clifford_1q || clifford_2q,
        VirtualType::C1 => clifford_1q || clifford_2q,
        VirtualType::U2 => gate.num_qubits() == 1,
    }
}

/// A single-qubit Clifford carries every virtual type through.
pub proof fn lemma_single_qubit_clifford_propagates_all(virtual_type: VirtualType, gate: StandardGate)
    requires
        clifford_1q(gate),
    ensures
        propagates_spec(virtual_type, gate),
{
}

/// No gate on more than one qubit carries a `U2` element through, whatever its rules for the finite
/// groups are.
pub proof fn lemma_no_entangler_propagates_u2(gate: StandardGate)
    requires
        gate.width() != 1,
    ensures
        !propagates_spec(VirtualType::U2, gate),
{
}

/// The three finite groups share one set of rules.
pub proof fn lemma_finite_groups_agree(gate: StandardGate)
    ensures
        propagates_spec(VirtualType::Pauli, gate) == propagates_spec(VirtualType::C1, gate),
        propagates_spec(VirtualType::Pauli, gate) == propagates_spec(VirtualType::Z2, gate),
{
}

} // verus!
