//! The error type of the IR layer.
//!
//! No IR routine panics on malformed input: every reachable failure has a
//! dedicated variant, and each validation variant corresponds to exactly one
//! circuit invariant.
use vstd::prelude::*;

use crate::ir::types::{ClbitId, QubitId};

verus! {

/// The abstract value of an [`IrError`].
pub enum IrErrorModel {
    /// See [`IrError::QubitOutOfRange`].
    QubitOutOfRange { qubit: QubitId, declared: u32 },
    /// See [`IrError::ClbitOutOfRange`].
    ClbitOutOfRange { clbit: ClbitId, declared: u32 },
    /// See [`IrError::GateArityMismatch`].
    GateArityMismatch { gate: Seq<char>, expected: nat, found: nat },
    /// See [`IrError::DuplicateQubit`].
    DuplicateQubit { gate: Seq<char>, qubit: QubitId },
    /// See [`IrError::EmptyOpaqueName`].
    EmptyOpaqueName,
    /// See [`IrError::EmptyOpaqueOperands`].
    EmptyOpaqueOperands { gate: Seq<char> },
    /// See [`IrError::NonFiniteAngle`].
    NonFiniteAngle { gate: Seq<char> },
    /// See [`IrError::EmptyParameterSymbol`].
    EmptyParameterSymbol { gate: Seq<char> },
    /// See [`IrError::CyclicGraph`].
    CyclicGraph,
}

/// The single error type surfaced by the IR layer.
#[derive(Debug, Clone, PartialEq)]
pub enum IrError {
    /// An instruction referenced a qubit outside the declared register.
    QubitOutOfRange {
        /// The offending reference.
        qubit: QubitId,
        /// Number of qubits the circuit declared.
        declared: u32,
    },
    /// A measurement referenced a classical bit outside the declared register.
    ClbitOutOfRange {
        /// The offending reference.
        clbit: ClbitId,
        /// Number of classical bits the circuit declared.
        declared: u32,
    },
    /// A registered gate was applied to the wrong number of qubits.
    GateArityMismatch {
        /// Gate mnemonic.
        gate: String,
        /// Number of operands expected.
        expected: usize,
        /// Operands supplied.
        found: usize,
    },
    /// The same qubit appeared twice in one gate.
    DuplicateQubit {
        /// Gate mnemonic.
        gate: String,
        /// The repeated qubit.
        qubit: QubitId,
    },
    /// An opaque gate had an empty name.
    EmptyOpaqueName,
    /// An opaque gate was applied to zero qubits.
    EmptyOpaqueOperands {
        /// Gate mnemonic.
        gate: String,
    },
    /// A concrete gate parameter was NaN or infinite.
    NonFiniteAngle {
        /// Gate mnemonic.
        gate: String,
    },
    /// A symbolic gate parameter had an empty name.
    EmptyParameterSymbol {
        /// Gate mnemonic.
        gate: String,
    },
    /// The dependency graph built during conversion contained a cycle.
    CyclicGraph,
}

impl View for IrError {
    type V = IrErrorModel;

    open spec fn view(&self) -> IrErrorModel {
        match self {
            IrError::QubitOutOfRange { qubit, declared } => IrErrorModel::QubitOutOfRange {
                qubit: *qubit,
                declared: *declared,
            },
            IrError::ClbitOutOfRange { clbit, declared } => IrErrorModel::ClbitOutOfRange {
                clbit: *clbit,
                declared: *declared,
            },
            IrError::GateArityMismatch { gate, expected, found } =>
                IrErrorModel::GateArityMismatch {
                    gate: gate@,
                    expected: *expected as nat,
                    found: *found as nat,
                },
            IrError::DuplicateQubit { gate, qubit } => IrErrorModel::DuplicateQubit {
                gate: gate@,
                qubit: *qubit,
            },
            IrError::EmptyOpaqueName => IrErrorModel::EmptyOpaqueName,
            IrError::EmptyOpaqueOperands { gate } => IrErrorModel::EmptyOpaqueOperands {
                gate: gate@,
            },
            IrError::NonFiniteAngle { gate } => IrErrorModel::NonFiniteAngle { gate: gate@ },
            IrError::EmptyParameterSymbol { gate } => IrErrorModel::EmptyParameterSymbol {
                gate: gate@,
            },
            IrError::CyclicGraph => IrErrorModel::CyclicGraph,
        }
    }
}

} // verus!
