//! Lowering a circuit onto a device: layout and routing.
//!
//! Layout places logical qubits on physical ones; routing then walks the
//! program in order, inserting `Swap`s so that every two-qubit operation
//! lands on a coupled pair, and orientation repair turns operations that
//! face the wrong way down a one-way edge.
pub mod decompose;
pub mod layout;
pub mod lower;
pub mod routing;
pub mod rules;

use vstd::prelude::*;

use crate::ir::error::IrError;
use crate::ir::qc::{inst_qubits, Circuit, Instruction, InstructionModel};
use crate::ir::types::QubitId;
use crate::lowering::layout::{DenseLayout, Layout, LayoutError, TrivialLayout};
use crate::lowering::rules::{RuleError, RuleSetError};
use crate::target::{MeasurementSupport, PhysicalQubit};

verus! {

/// Why no sequence of SWAPs could make two qubits adjacent.
#[derive(Debug, Clone, Copy, PartialEq, Eq, Structural)]
pub enum UnroutableReason {
    /// The qubits are in different components of the routing graph. No amount
    /// of routing can fix this.
    NoPath,
    /// Every path runs through a wire that has already been measured, on a
    /// device that cannot measure mid-circuit.
    MeasurementFrozenWire,
}

impl UnroutableReason {
    /// The human-readable explanation of this reason.
    pub fn describe(&self) -> (r: &'static str)
        ensures
            r@ == match self {
                UnroutableReason::NoPath => "no path in the routing graph"@,
                UnroutableReason::MeasurementFrozenWire => "every path crosses a measured wire"@,
            },
    {
        match self {
            UnroutableReason::NoPath => "no path in the routing graph",
            UnroutableReason::MeasurementFrozenWire => "every path crosses a measured wire",
        }
    }
}

/// Why a circuit could not be lowered onto a target.
///
/// Every variant is a refusal naming exactly what could not be fixed; there
/// is no best-effort circuit.
#[derive(Debug, Clone, PartialEq)]
pub enum LoweringError {
    /// The target's rule set is malformed, or cannot reach its own basis.
    RuleSet {
        /// The profile at fault.
        target: String,
        /// What is wrong with it.
        source: RuleSetError,
    },
    /// A rule refused to apply.
    Rule {
        /// The underlying rule problem.
        source: RuleError,
    },
    /// A rewritten circuit failed QC-IR validation.
    Ir {
        /// The invariant that was broken.
        source: IrError,
    },
    /// An operation is outside the basis and the target has no rule for it.
    NoDecompositionRule {
        /// The stranded operation.
        mnemonic: String,
        /// The target, with its version.
        target: String,
    },
    /// An opaque operation the target does not natively support.
    OpaqueOperation {
        /// The opaque gate's name.
        name: String,
        /// The target.
        target: String,
    },
    /// The device cannot measure, or cannot reset, and the circuit does.
    UnsupportedClassicalOperation {
        /// Program index.
        index: usize,
        /// `"measure"` or `"reset"`.
        operation: String,
        /// The target.
        target: String,
    },
    /// The input program already measures mid-circuit, before routing had
    /// any say in it.
    InputMeasuresMidCircuit {
        /// Program index of the measurement.
        index: usize,
        /// The qubit that keeps being used.
        qubit: QubitId,
        /// The target.
        target: String,
    },
    /// Rewriting did not finish within its depth guard.
    DecompositionDidNotConverge {
        /// The operation being rewritten.
        mnemonic: String,
        /// The depth reached.
        depth: usize,
    },
    /// A symbolic parameter reached an operation whose lowering would have
    /// had to transform it.
    UnboundParameter {
        /// The operation.
        mnemonic: String,
        /// The unbound symbol.
        symbol: String,
    },
    /// A layout could not be chosen.
    Layout {
        /// The underlying layout problem.
        source: LayoutError,
    },
    /// Two operands could not be brought together.
    Unroutable {
        /// Program index of the operation.
        index: usize,
        /// First operand's physical qubit.
        from: PhysicalQubit,
        /// Second operand's physical qubit.
        to: PhysicalQubit,
        /// Which of the two ways this happens.
        reason: UnroutableReason,
    },
    /// A two-qubit operation faces the wrong way down a one-way edge, and has
    /// no verified reversal.
    UnrepairableOrientation {
        /// Program index of the operation.
        index: usize,
        /// The operation.
        mnemonic: String,
        /// Why no repair applies.
        detail: String,
    },
    /// A logical qubit had no place on the device.
    UnmappedQubit {
        /// Program index.
        index: usize,
        /// The unmapped qubit.
        qubit: QubitId,
    },
}

/// A classical operation a device refuses, found in the input program.
pub enum ClassicalIssue {
    /// A measurement or reset the device cannot perform, at a program index.
    Unsupported { index: nat, operation: Seq<char> },
    /// A measurement of a qubit the program uses again later, on a device
    /// that cannot measure mid-circuit.
    MidCircuit { index: nat, qubit: QubitId },
}

/// Whether some instruction after program index `i` touches `q`.
pub open spec fn used_later(insts: Seq<InstructionModel>, i: nat, q: QubitId) -> bool {
    exists|j: int| i < j < insts.len() && inst_qubits(#[trigger] insts[j]).contains(q)
}

/// What is wrong with instruction `i` on a device with the given support.
pub open spec fn classical_issue_at(insts: Seq<InstructionModel>, i: nat, support: MeasurementSupport) -> Option<ClassicalIssue> {
    match insts[i as int] {
        InstructionModel::Measure { qubit, .. } => if !support.measurement {
            Some(ClassicalIssue::Unsupported { index: i, operation: "measure"@ })
        } else if !support.mid_circuit_measurement && used_later(insts, i, qubit) {
            Some(ClassicalIssue::MidCircuit { index: i, qubit })
        } else {
            None
        },
        InstructionModel::Reset { .. } => if !support.reset {
            Some(ClassicalIssue::Unsupported { index: i, operation: "reset"@ })
        } else {
            None
        },
        _ => None,
    }
}

/// The first classical issue among the first `k` instructions.
pub open spec fn first_classical_issue(insts: Seq<InstructionModel>, k: nat, support: MeasurementSupport) -> Option<ClassicalIssue>
    decreases k,
{
    if k == 0 {
        None
    } else {
        match first_classical_issue(insts, (k - 1) as nat, support) {
            Some(issue) => Some(issue),
            None => classical_issue_at(insts, (k - 1) as nat, support),
        }
    }
}

/// Whether a lowering error reports `issue` against `target`.
pub open spec fn reports_issue(e: LoweringError, issue: ClassicalIssue, target: Seq<char>) -> bool {
    match issue {
        ClassicalIssue::Unsupported { index, operation } => e matches LoweringError::UnsupportedClassicalOperation {
            index: i,
            operation: op,
            target: t,
        } && i == index && op@ == operation && t@ == target,
        ClassicalIssue::MidCircuit { index, qubit } => e matches LoweringError::InputMeasuresMidCircuit {
            index: i,
            qubit: q,
            target: t,
        } && i == index && q == qubit && t@ == target,
    }
}

/// Once an issue is found, it stays the first one.
proof fn lemma_first_issue_stays(insts: Seq<InstructionModel>, i: nat, k: nat, support: MeasurementSupport)
    requires
        i <= k,
        first_classical_issue(insts, i, support) is Some,
    ensures
        first_classical_issue(insts, k, support) == first_classical_issue(insts, i, support),
    decreases k - i,
{
    if i < k {
        lemma_first_issue_stays(insts, i, (k - 1) as nat, support);
    }
}

/// Rejects measurement and reset the device cannot perform, checked up
/// front against the input, so that the diagnostic names the program as
/// written: the first measurement on a device that cannot measure, the
/// first measurement of a qubit used again later on a device that cannot
/// measure mid-circuit, or the first reset on a device that cannot reset.
pub fn reject_unsupported_classical(circuit: &Circuit, support: MeasurementSupport, target: &str) -> (r: Result<(), LoweringError>)
    ensures
        match first_classical_issue(circuit@.instructions, circuit@.instructions.len(), support) {
            None => r is Ok,
            Some(issue) => r matches Err(e) && reports_issue(e, issue, target@),
        },
{
    let instrs = circuit.instructions();
    let ghost insts = circuit@.instructions;
    let mut index: usize = 0;
    while index < instrs.len()
        invariant
            index <= instrs@.len(),
            crate::ir::qc::insts_model(instrs@) == insts,
            instrs@.len() == insts.len(),
            first_classical_issue(insts, index as nat, support) is None,
            insts == circuit@.instructions,
        decreases instrs@.len() - index,
    {
        proof {
            assert(instrs@[index as int]@ == insts[index as int]);
            if classical_issue_at(insts, index as nat, support) is Some {
                lemma_first_issue_stays(insts, index as nat + 1, insts.len(), support);
            }
        }
        match &instrs[index] {
            Instruction::Measure { qubit, .. } => {
                if !support.measurement {
                    return Err(LoweringError::UnsupportedClassicalOperation {
                        index,
                        operation: "measure".to_string(),
                        target: target.to_string(),
                    });
                }
                if !support.mid_circuit_measurement && is_used_later(instrs, index, *qubit) {
                    return Err(LoweringError::InputMeasuresMidCircuit {
                        index,
                        qubit: *qubit,
                        target: target.to_string(),
                    });
                }
            },
            Instruction::Reset { .. } => {
                if !support.reset {
                    return Err(LoweringError::UnsupportedClassicalOperation {
                        index,
                        operation: "reset".to_string(),
                        target: target.to_string(),
                    });
                }
            },
            _ => {},
        }
        index += 1;
    }
    Ok(())
}

/// Whether an instruction after `index` touches `qubit`.
fn is_used_later(instrs: &[Instruction], index: usize, qubit: QubitId) -> (r: bool)
    ensures
        r == used_later(crate::ir::qc::insts_model(instrs@), index as nat, qubit),
{
    let ghost insts = crate::ir::qc::insts_model(instrs@);
    if index >= instrs.len() {
        return false;
    }
    let mut j: usize = index + 1;
    while j < instrs.len()
        invariant
            index < j <= instrs@.len(),
            insts == crate::ir::qc::insts_model(instrs@),
            insts.len() == instrs@.len(),
            forall|k: int| index < k < j ==> !inst_qubits(#[trigger] insts[k]).contains(qubit),
        decreases instrs@.len() - j,
    {
        let qs = instrs[j].qubits();
        proof {
            assert(instrs@[j as int]@ == insts[j as int]);
            assert(qs@ == inst_qubits(insts[j as int]));
        }
        let mut k: usize = 0;
        while k < qs.len()
            invariant
                k <= qs@.len(),
                index < j < instrs@.len(),
                insts == crate::ir::qc::insts_model(instrs@),
                insts.len() == instrs@.len(),
                qs@ == inst_qubits(insts[j as int]),
                forall|l: int| 0 <= l < k ==> qs@[l] != qubit,
            decreases qs@.len() - k,
        {
            if qs[k].0 == qubit.0 {
                proof {
                    assert(qs@[k as int] == qubit);
                    assert(qs@.contains(qubit));
                    assert(inst_qubits(insts[j as int]).contains(qubit));
                    assert(index < j < insts.len());
                }
                return true;
            }
            k += 1;
        }
        proof {
            assert(!qs@.contains(qubit));
        }
        j += 1;
    }
    false
}

/// Which layout to use.
#[derive(Debug, Clone)]
pub enum LayoutChoice {
    /// Logical `n` on physical `n`.
    Trivial,
    /// Seat interacting qubits near each other.
    Dense,
    /// A layout supplied by the caller.
    Explicit(Layout),
}

impl LayoutChoice {
    /// This choice's stable identifier, for reporting.
    pub fn id(&self) -> (r: &'static str)
        ensures
            r@ == match self {
                LayoutChoice::Trivial => "trivial"@,
                LayoutChoice::Dense => "dense"@,
                LayoutChoice::Explicit(_) => "explicit"@,
            },
    {
        match self {
            LayoutChoice::Trivial => TrivialLayout.id(),
            LayoutChoice::Dense => DenseLayout.id(),
            LayoutChoice::Explicit(_) => "explicit",
        }
    }
}

/// How lowering should be performed.
#[derive(Debug, Clone)]
pub struct LoweringConfig {
    /// Which layout strategy to use.
    pub layout: LayoutChoice,
    /// Whether to insert SWAPs for non-local operations. Turning this off is
    /// an inspection aid, not a compilation mode.
    pub route: bool,
    /// Whether to rewrite operations outside the basis.
    pub decompose: bool,
}

impl Default for LoweringConfig {
    fn default() -> (r: Self)
        ensures
            r.layout is Trivial,
            r.route,
            r.decompose,
    {
        LoweringConfig { layout: LayoutChoice::Trivial, route: true, decompose: true }
    }
}

/// One step of the lowering schedule, and what it did.
#[derive(Debug, Clone)]
pub struct LoweringStep {
    /// Stable step identifier.
    pub id: String,
    /// Operations after this step.
    pub op_count: usize,
    /// One-line summary.
    pub detail: String,
}

} // verus!
