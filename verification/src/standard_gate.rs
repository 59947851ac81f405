//! The standard gates a circuit may hold, with the width and the names each one goes by.

use vstd::prelude::*;

verus! {

/// A gate of the standard library.
#[derive(Debug, Clone, Copy, PartialEq, Eq, Structural, Hash)]
pub enum StandardGate {
    GlobalPhase,
    H,
    I,
    X,
    Y,
    Z,
    Phase,
    R,
    RX,
    RY,
    RZ,
    S,
    Sdg,
    SX,
    SXdg,
    T,
    Tdg,
    U,
    U1,
    U2,
    U3,
    CH,
    CX,
    CY,
    CZ,
    DCX,
    ECR,
    Swap,
    ISwap,
    CPhase,
    CRX,
    CRY,
    CRZ,
    CS,
    CSdg,
    CSX,
    CU,
    CU1,
    CU3,
    RXX,
    RYY,
    RZZ,
    RZX,
    XXMinusYY,
    XXPlusYY,
    CCX,
    CCZ,
    CSwap,
    RCCX,
    C3X,
    C3SX,
    RC3X,
}

impl StandardGate {
    /// How many qubits this gate acts on.
    pub open spec fn width(self) -> nat {
        match self {
            Self::GlobalPhase => 0,
            Self::CH
            | Self::CX
            | Self::CY
            | Self::CZ
            | Self::DCX
            | Self::ECR
            | Self::Swap
            | Self::ISwap
            | Self::CPhase
            | Self::CRX
            | Self::CRY
            | Self::CRZ
            | Self::CS
            | Self::CSdg
            | Self::CSX
            | Self::CU
            | Self::CU1
            | Self::CU3
            | Self::RXX
            | Self::RYY
            | Self::RZZ
            | Self::RZX
            | Self::XXMinusYY
            | Self::XXPlusYY => 2,
            Self::CCX
            | Self::CCZ
            | Self::CSwap
            | Self::RCCX => 3,
            Self::C3X
            | Self::C3SX
            | Self::RC3X => 4,
            _ => 1,
        }
    }

    /// The lowercase name of this gate, as it is written.
    pub open spec fn name_text(self) -> Seq<char> {
        match self {
            Self::GlobalPhase => "global_phase"@,
            Self::H => "h"@,
            Self::I => "id"@,
            Self::X => "x"@,
            Self::Y => "y"@,
            Self::Z => "z"@,
            Self::Phase => "p"@,
            Self::R => "r"@,
            Self::RX => "rx"@,
            Self::RY => "ry"@,
            Self::RZ => "rz"@,
            Self::S => "s"@,
            Self::Sdg => "sdg"@,
            Self::SX => "sx"@,
            Self::SXdg => "sxdg"@,
            Self::T => "t"@,
            Self::Tdg => "tdg"@,
            Self::U => "u"@,
            Self::U1 => "u1"@,
            Self::U2 => "u2"@,
            Self::U3 => "u3"@,
            Self::CH => "ch"@,
            Self::CX => "cx"@,
            Self::CY => "cy"@,
            Self::CZ => "cz"@,
            Self::DCX => "dcx"@,
            Self::ECR => "ecr"@,
            Self::Swap => "swap"@,
            Self::ISwap => "iswap"@,
            Self::CPhase => "cp"@,
            Self::CRX => "crx"@,
            Self::CRY => "cry"@,
            Self::CRZ => "crz"@,
            Self::CS => "cs"@,
            Self::CSdg => "csdg"@,
            Self::CSX => "csx"@,
            Self::CU => "cu"@,
            Self::CU1 => "cu1"@,
            Self::CU3 => "cu3"@,
            Self::RXX => "rxx"@,
            Self::RYY => "ryy"@,
            Self::RZZ => "rzz"@,
            Self::RZX => "rzx"@,
            Self::XXMinusYY => "xx_minus_yy"@,
            Self::XXPlusYY => "xx_plus_yy"@,
            Self::CCX => "ccx"@,
            Self::CCZ => "ccz"@,
            Self::CSwap => "cswap"@,
            Self::RCCX => "rccx"@,
            Self::C3X => "mcx"@,
            Self::C3SX => "c3sx"@,
            Self::RC3X => "rcccx"@,
        }
    }

    /// The identifier of this gate, as a rendered graph shows it.
    pub open spec fn ident_text(self) -> Seq<char> {
        match self {
            Self::GlobalPhase => "GlobalPhase"@,
            Self::H => "H"@,
            Self::I => "I"@,
            Self::X => "X"@,
            Self::Y => "Y"@,
            Self::Z => "Z"@,
            Self::Phase => "Phase"@,
            Self::R => "R"@,
            Self::RX => "RX"@,
            Self::RY => "RY"@,
            Self::RZ => "RZ"@,
            Self::S => "S"@,
            Self::Sdg => "Sdg"@,
            Self::SX => "SX"@,
            Self::SXdg => "SXdg"@,
            Self::T => "T"@,
            Self::Tdg => "Tdg"@,
            Self::U => "U"@,
            Self::U1 => "U1"@,
            Self::U2 => "U2"@,
            Self::U3 => "U3"@,
            Self::CH => "CH"@,
            Self::CX => "CX"@,
            Self::CY => "CY"@,
            Self::CZ => "CZ"@,
            Self::DCX => "DCX"@,
            Self::ECR => "ECR"@,
            Self::Swap => "Swap"@,
            Self::ISwap => "ISwap"@,
            Self::CPhase => "CPhase"@,
            Self::CRX => "CRX"@,
            Self::CRY => "CRY"@,
            Self::CRZ => "CRZ"@,
            Self::CS => "CS"@,
            Self::CSdg => "CSdg"@,
            Self::CSX => "CSX"@,
            Self::CU => "CU"@,
            Self::CU1 => "CU1"@,
            Self::CU3 => "CU3"@,
            Self::RXX => "RXX"@,
            Self::RYY => "RYY"@,
            Self::RZZ => "RZZ"@,
            Self::RZX => "RZX"@,
            Self::XXMinusYY => "XXMinusYY"@,
            Self::XXPlusYY => "XXPlusYY"@,
            Self::CCX => "CCX"@,
            Self::CCZ => "CCZ"@,
            Self::CSwap => "CSwap"@,
            Self::RCCX => "RCCX"@,
            Self::C3X => "C3X"@,
            Self::C3SX => "C3SX"@,
            Self::RC3X => "RC3X"@,
        }
    }

    /// A number of its own for each gate.
    pub open spec fn number(self) -> usize {
        match self {
            Self::GlobalPhase => 0,
            Self::H => 1,
            Self::I => 2,
            Self::X => 3,
            Self::Y => 4,
            Self::Z => 5,
            Self::Phase => 6,
            Self::R => 7,
            Self::RX => 8,
            Self::RY => 9,
            Self::RZ => 10,
            Self::S => 11,
            Self::Sdg => 12,
            Self::SX => 13,
            Self::SXdg => 14,
            Self::T => 15,
            Self::Tdg => 16,
            Self::U => 17,
            Self::U1 => 18,
            Self::U2 => 19,
            Self::U3 => 20,
            Self::CH => 21,
            Self::CX => 22,
            Self::CY => 23,
            Self::CZ => 24,
            Self::DCX => 25,
            Self::ECR => 26,
            Self::Swap => 27,
            Self::ISwap => 28,
            Self::CPhase => 29,
            Self::CRX => 30,
            Self::CRY => 31,
            Self::CRZ => 32,
            Self::CS => 33,
            Self::CSdg => 34,
            Self::CSX => 35,
            Self::CU => 36,
            Self::CU1 => 37,
            Self::CU3 => 38,
            Self::RXX => 39,
            Self::RYY => 40,
            Self::RZZ => 41,
            Self::RZX => 42,
            Self::XXMinusYY => 43,
            Self::XXPlusYY => 44,
            Self::CCX => 45,
            Self::CCZ => 46,
            Self::CSwap => 47,
            Self::RCCX => 48,
            Self::C3X => 49,
            Self::C3SX => 50,
            Self::RC3X => 51,
        }
    }

    /// How many qubits this gate acts on.
    pub fn num_qubits(&self) -> (width: u32)
        ensures
            width == self.width(),
    {
        match self {
            Self::GlobalPhase => 0,
            Self::CH
            | Self::CX
            | Self::CY
            | Self::CZ
            | Self::DCX
            | Self::ECR
            | Self::Swap
            | Self::ISwap
            | Self::CPhase
            | Self::CRX
            | Self::CRY
            | Self::CRZ
            | Self::CS
            | Self::CSdg
            | Self::CSX
            | Self::CU
            | Self::CU1
            | Self::CU3
            | Self::RXX
            | Self::RYY
            | Self::RZZ
            | Self::RZX
            | Self::XXMinusYY
            | Self::XXPlusYY => 2,
            Self::CCX
            | Self::CCZ
            | Self::CSwap
            | Self::RCCX => 3,
            Self::C3X
            | Self::C3SX
            | Self::RC3X => 4,
            _ => 1,
        }
    }

    /// The lowercase name of this gate, as it is written.
    pub fn name(&self) -> (name: &'static str)
        ensures
            name@ == self.name_text(),
    {
        match self {
            Self::GlobalPhase => "global_phase",
            Self::H => "h",
            Self::I => "id",
            Self::X => "x",
            Self::Y => "y",
            Self::Z => "z",
            Self::Phase => "p",
            Self::R => "r",
            Self::RX => "rx",
            Self::RY => "ry",
            Self::RZ => "rz",
            Self::S => "s",
            Self::Sdg => "sdg",
            Self::SX => "sx",
            Self::SXdg => "sxdg",
            Self::T => "t",
            Self::Tdg => "tdg",
            Self::U => "u",
            Self::U1 => "u1",
            Self::U2 => "u2",
            Self::U3 => "u3",
            Self::CH => "ch",
            Self::CX => "cx",
            Self::CY => "cy",
            Self::CZ => "cz",
            Self::DCX => "dcx",
            Self::ECR => "ecr",
            Self::Swap => "swap",
            Self::ISwap => "iswap",
            Self::CPhase => "cp",
            Self::CRX => "crx",
            Self::CRY => "cry",
            Self::CRZ => "crz",
            Self::CS => "cs",
            Self::CSdg => "csdg",
            Self::CSX => "csx",
            Self::CU => "cu",
            Self::CU1 => "cu1",
            Self::CU3 => "cu3",
            Self::RXX => "rxx",
            Self::RYY => "ryy",
            Self::RZZ => "rzz",
            Self::RZX => "rzx",
            Self::XXMinusYY => "xx_minus_yy",
            Self::XXPlusYY => "xx_plus_yy",
            Self::CCX => "ccx",
            Self::CCZ => "ccz",
            Self::CSwap => "cswap",
            Self::RCCX => "rccx",
            Self::C3X => "mcx",
            Self::C3SX => "c3sx",
            Self::RC3X => "rcccx",
        }
    }

    /// The identifier of this gate, as a rendered graph shows it.
    pub fn ident(&self) -> (ident: &'static str)
        ensures
            ident@ == self.ident_text(),
    {
        match self {
            Self::GlobalPhase => "GlobalPhase",
            Self::H => "H",
            Self::I => "I",
            Self::X => "X",
            Self::Y => "Y",
            Self::Z => "Z",
            Self::Phase => "Phase",
            Self::R => "R",
            Self::RX => "RX",
            Self::RY => "RY",
            Self::RZ => "RZ",
            Self::S => "S",
            Self::Sdg => "Sdg",
            Self::SX => "SX",
            Self::SXdg => "SXdg",
            Self::T => "T",
            Self::Tdg => "Tdg",
            Self::U => "U",
            Self::U1 => "U1",
            Self::U2 => "U2",
            Self::U3 => "U3",
            Self::CH => "CH",
            Self::CX => "CX",
            Self::CY => "CY",
            Self::CZ => "CZ",
            Self::DCX => "DCX",
            Self::ECR => "ECR",
            Self::Swap => "Swap",
            Self::ISwap => "ISwap",
            Self::CPhase => "CPhase",
            Self::CRX => "CRX",
            Self::CRY => "CRY",
            Self::CRZ => "CRZ",
            Self::CS => "CS",
            Self::CSdg => "CSdg",
            Self::CSX => "CSX",
            Self::CU => "CU",
            Self::CU1 => "CU1",
            Self::CU3 => "CU3",
            Self::RXX => "RXX",
            Self::RYY => "RYY",
            Self::RZZ => "RZZ",
            Self::RZX => "RZX",
            Self::XXMinusYY => "XXMinusYY",
            Self::XXPlusYY => "XXPlusYY",
            Self::CCX => "CCX",
            Self::CCZ => "CCZ",
            Self::CSwap => "CSwap",
            Self::RCCX => "RCCX",
            Self::C3X => "C3X",
            Self::C3SX => "C3SX",
            Self::RC3X => "RC3X",
        }
    }

    /// A number of its own for each gate.
    pub fn index(&self) -> (index: usize)
        ensures
            index == self.number(),
            index < 52,
    {
        match self {
            Self::GlobalPhase => 0,
            Self::H => 1,
            Self::I => 2,
            Self::X => 3,
            Self::Y => 4,
            Self::Z => 5,
            Self::Phase => 6,
            Self::R => 7,
            Self::RX => 8,
            Self::RY => 9,
            Self::RZ => 10,
            Self::S => 11,
            Self::Sdg => 12,
            Self::SX => 13,
            Self::SXdg => 14,
            Self::T => 15,
            Self::Tdg => 16,
            Self::U => 17,
            Self::U1 => 18,
            Self::U2 => 19,
            Self::U3 => 20,
            Self::CH => 21,
            Self::CX => 22,
            Self::CY => 23,
            Self::CZ => 24,
            Self::DCX => 25,
            Self::ECR => 26,
            Self::Swap => 27,
            Self::ISwap => 28,
            Self::CPhase => 29,
            Self::CRX => 30,
            Self::CRY => 31,
            Self::CRZ => 32,
            Self::CS => 33,
            Self::CSdg => 34,
            Self::CSX => 35,
            Self::CU => 36,
            Self::CU1 => 37,
            Self::CU3 => 38,
            Self::RXX => 39,
            Self::RYY => 40,
            Self::RZZ => 41,
            Self::RZX => 42,
            Self::XXMinusYY => 43,
            Self::XXPlusYY => 44,
            Self::CCX => 45,
            Self::CCZ => 46,
            Self::CSwap => 47,
            Self::RCCX => 48,
            Self::C3X => 49,
            Self::C3SX => 50,
            Self::RC3X => 51,
        }
    }
}

/// Two gates of one number are one gate.
pub proof fn lemma_gate_numbers_differ(left: StandardGate, right: StandardGate)
    requires
        left.number() == right.number(),
    ensures
        left == right,
{
}

} // verus!
