//! QC-IR: the imperative circuit IR.
//!
//! A [`Circuit`] owns `num_qubits` qubits and `num_clbits` classical bits and
//! an ordered list of [`Instruction`]s. Circuits are only ever produced by
//! [`CircuitBuilder::build`], which checks every invariant, so every
//! `Circuit` in existence is valid: that is the type invariant below.
use vstd::prelude::*;

use crate::ir::error::{IrError, IrErrorModel};
use crate::ir::types::{
    bits_finite, clone_params, gate_arity, gate_mnemonic, gate_params, ClbitId, GateKind, GateModel,
    Param, ParamModel, QubitId,
};

verus! {

/// The abstract value of an [`Instruction`].
pub enum InstructionModel {
    /// A unitary gate on an ordered operand list.
    Gate { kind: GateModel, qubits: Seq<QubitId> },
    /// A computational-basis measurement.
    Measure { qubit: QubitId, target: ClbitId },
    /// A reset to `|0⟩`.
    Reset { qubit: QubitId },
}

/// A single QC-IR instruction.
#[derive(Debug, PartialEq)]
pub enum Instruction {
    /// Apply a unitary gate to an ordered list of qubit operands. For
    /// controlled gates the leading operands are controls and the last is the
    /// target.
    Gate {
        /// Gate identity and parameters.
        kind: GateKind,
        /// Ordered qubit operands.
        qubits: Vec<QubitId>,
    },
    /// Measure a qubit in the computational basis into a classical bit.
    Measure {
        /// Qubit being measured.
        qubit: QubitId,
        /// Destination classical bit.
        target: ClbitId,
    },
    /// Reset a qubit to `|0⟩`.
    Reset {
        /// Qubit being reset.
        qubit: QubitId,
    },
}

impl View for Instruction {
    type V = InstructionModel;

    open spec fn view(&self) -> InstructionModel {
        match self {
            Instruction::Gate { kind, qubits } => InstructionModel::Gate {
                kind: kind@,
                qubits: qubits@,
            },
            Instruction::Measure { qubit, target } => InstructionModel::Measure {
                qubit: *qubit,
                target: *target,
            },
            Instruction::Reset { qubit } => InstructionModel::Reset { qubit: *qubit },
        }
    }
}

/// The qubits an instruction touches, in operand order.
pub open spec fn inst_qubits(i: InstructionModel) -> Seq<QubitId> {
    match i {
        InstructionModel::Gate { qubits, .. } => qubits,
        InstructionModel::Measure { qubit, .. } => seq![qubit],
        InstructionModel::Reset { qubit } => seq![qubit],
    }
}

/// The abstract instruction list of a vector of instructions.
pub open spec fn insts_model(v: Seq<Instruction>) -> Seq<InstructionModel> {
    v.map_values(|i: Instruction| i@)
}

impl Clone for Instruction {
    fn clone(&self) -> (r: Self)
        ensures
            r@ == self@,
    {
        match self {
            Instruction::Gate { kind, qubits } => Instruction::Gate {
                kind: kind.clone(),
                qubits: qubits.clone(),
            },
            Instruction::Measure { qubit, target } => Instruction::Measure {
                qubit: *qubit,
                target: *target,
            },
            Instruction::Reset { qubit } => Instruction::Reset { qubit: *qubit },
        }
    }
}

/// Copies a slice of instructions into a vector.
pub fn clone_instructions(v: &[Instruction]) -> (r: Vec<Instruction>)
    ensures
        insts_model(r@) == insts_model(v@),
        r@.len() == v@.len(),
{
    let mut out: Vec<Instruction> = Vec::new();
    let mut i: usize = 0;
    while i < v.len()
        invariant
            i <= v@.len(),
            out@.len() == i,
            forall|j: int| 0 <= j < i ==> #[trigger] out@[j]@ == v@[j]@,
        decreases v@.len() - i,
    {
        out.push(v[i].clone());
        i += 1;
    }
    proof {
        assert(insts_model(out@) =~= insts_model(v@));
    }
    out
}

impl Instruction {
    /// The qubits this instruction touches, in operand order.
    pub fn qubits(&self) -> (r: Vec<QubitId>)
        ensures
            r@ == inst_qubits(self@),
    {
        match self {
            Instruction::Gate { qubits, .. } => qubits.clone(),
            Instruction::Measure { qubit, .. } => vec![*qubit],
            Instruction::Reset { qubit } => vec![*qubit],
        }
    }

    /// The classical bit this instruction writes, if any.
    pub fn clbit(&self) -> (r: Option<ClbitId>)
        ensures
            match self@ {
                InstructionModel::Measure { target, .. } => r == Some(target),
                _ => r is None,
            },
    {
        match self {
            Instruction::Measure { target, .. } => Some(*target),
            _ => None,
        }
    }

    /// Whether this is a unitary gate (measurement and reset are not).
    pub fn is_unitary(&self) -> (r: bool)
        ensures
            r == (self@ is Gate),
    {
        match self {
            Instruction::Gate { .. } => true,
            _ => false,
        }
    }

    /// The control qubits of a controlled gate, in order; empty for every
    /// other instruction.
    pub fn control(&self) -> (r: Vec<QubitId>)
        ensures
            r@ == match self@ {
                InstructionModel::Gate { kind, qubits } => match kind {
                    GateModel::Cx | GateModel::Cy | GateModel::Cz => qubits.take(
                        if qubits.len() >= 1 { 1int } else { 0int },
                    ),
                    GateModel::Ccx => qubits.take(if qubits.len() >= 2 { 2int } else { qubits.len() as int }),
                    _ => Seq::empty(),
                },
                _ => Seq::empty(),
            },
    {
        let mut out: Vec<QubitId> = Vec::new();
        match self {
            Instruction::Gate { kind, qubits } => match kind {
                GateKind::Cx | GateKind::Cy | GateKind::Cz => {
                    if qubits.len() >= 1 {
                        out.push(qubits[0]);
                    }
                },
                GateKind::Ccx => {
                    if qubits.len() >= 1 {
                        out.push(qubits[0]);
                    }
                    if qubits.len() >= 2 {
                        out.push(qubits[1]);
                    }
                },
                _ => {},
            },
            _ => {},
        }
        proof {
            match self@ {
                InstructionModel::Gate { kind, qubits } => match kind {
                    GateModel::Cx | GateModel::Cy | GateModel::Cz => {
                        assert(out@ =~= qubits.take(if qubits.len() >= 1 { 1int } else { 0int }));
                    },
                    GateModel::Ccx => {
                        assert(out@ =~= qubits.take(
                            if qubits.len() >= 2 { 2int } else { qubits.len() as int },
                        ));
                    },
                    _ => {
                        assert(out@ =~= Seq::empty());
                    },
                },
                _ => {
                    assert(out@ =~= Seq::empty());
                },
            }
        }
        out
    }

    /// The target qubit of a controlled gate (its last operand), if this is
    /// one.
    pub fn target(&self) -> (r: Option<QubitId>)
        ensures
            r == match self@ {
                InstructionModel::Gate { kind, qubits } => match kind {
                    GateModel::Cx | GateModel::Cy | GateModel::Cz | GateModel::Ccx =>
                        if qubits.len() > 0 { Some(qubits.last()) } else { None },
                    _ => None,
                },
                _ => None,
            },
    {
        match self {
            Instruction::Gate { kind, qubits } => match kind {
                GateKind::Cx | GateKind::Cy | GateKind::Cz | GateKind::Ccx => {
                    if qubits.len() > 0 {
                        Some(qubits[qubits.len() - 1])
                    } else {
                        None
                    }
                },
                _ => None,
            },
            _ => None,
        }
    }

    /// Whether two instructions are identical.
    pub fn same_as(&self, other: &Instruction) -> (r: bool)
        ensures
            r == (self@ == other@),
    {
        match (self, other) {
            (Instruction::Gate { kind: k1, qubits: q1 }, Instruction::Gate { kind: k2, qubits: q2 }) => {
                k1.same_as(k2) && same_qubits(q1, q2)
            },
            (
                Instruction::Measure { qubit: a, target: c },
                Instruction::Measure { qubit: b, target: d },
            ) => a.0 == b.0 && c.0 == d.0,
            (Instruction::Reset { qubit: a }, Instruction::Reset { qubit: b }) => a.0 == b.0,
            _ => false,
        }
    }
}

/// Whether two operand lists are identical, in order.
pub fn same_qubits(a: &Vec<QubitId>, b: &Vec<QubitId>) -> (r: bool)
    ensures
        r == (a@ == b@),
{
    if a.len() != b.len() {
        return false;
    }
    let mut i: usize = 0;
    while i < a.len()
        invariant
            i <= a.len(),
            a.len() == b.len(),
            forall|j: int| 0 <= j < i ==> a@[j] == b@[j],
        decreases a.len() - i,
    {
        if a[i].0 != b[i].0 {
            return false;
        }
        i += 1;
    }
    proof {
        assert(a@ =~= b@);
    }
    true
}

// ---------------------------------------------------------------------------
// Validation, stated as the first error found in a fixed checking order.
// ---------------------------------------------------------------------------

/// The error a single parameter contributes, if it is malformed.
pub open spec fn param_error(p: ParamModel, gate: Seq<char>) -> Option<IrErrorModel> {
    match p {
        ParamModel::Concrete(bits) => if bits_finite(bits) {
            None
        } else {
            Some(IrErrorModel::NonFiniteAngle { gate })
        },
        ParamModel::Symbol(name) => if name.len() > 0 {
            None
        } else {
            Some(IrErrorModel::EmptyParameterSymbol { gate })
        },
    }
}

/// The first malformed parameter's error, scanning in order.
pub open spec fn params_error(ps: Seq<ParamModel>, gate: Seq<char>) -> Option<IrErrorModel>
    decreases ps.len(),
{
    if ps.len() == 0 {
        None
    } else {
        match params_error(ps.drop_last(), gate) {
            Some(e) => Some(e),
            None => param_error(ps.last(), gate),
        }
    }
}

/// The first operand that repeats an earlier one, scanning in order.
pub open spec fn first_duplicate(qs: Seq<QubitId>) -> Option<QubitId>
    decreases qs.len(),
{
    if qs.len() == 0 {
        None
    } else {
        match first_duplicate(qs.drop_last()) {
            Some(q) => Some(q),
            None => if qs.drop_last().contains(qs.last()) {
                Some(qs.last())
            } else {
                None
            },
        }
    }
}

/// The first operand outside a register of `declared` qubits, scanning in
/// order.
pub open spec fn first_out_of_range(qs: Seq<QubitId>, declared: u32) -> Option<QubitId>
    decreases qs.len(),
{
    if qs.len() == 0 {
        None
    } else {
        match first_out_of_range(qs.drop_last(), declared) {
            Some(q) => Some(q),
            None => if qs.last().0 >= declared {
                Some(qs.last())
            } else {
                None
            },
        }
    }
}

/// What is wrong with a gate application, checked in this order: parameter
/// well-formedness, opaque name and operands, arity, repeated operands,
/// operand range.
pub open spec fn gate_error(kind: GateModel, qubits: Seq<QubitId>, num_qubits: u32) -> Option<
    IrErrorModel,
> {
    let gate = gate_mnemonic(kind);
    match params_error(gate_params(kind), gate) {
        Some(e) => Some(e),
        None => if kind is Opaque && kind->Opaque_name.len() == 0 {
            Some(IrErrorModel::EmptyOpaqueName)
        } else if kind is Opaque && qubits.len() == 0 {
            Some(IrErrorModel::EmptyOpaqueOperands { gate })
        } else if gate_arity(kind) is Some && qubits.len() != gate_arity(kind)->0 {
            Some(
                IrErrorModel::GateArityMismatch {
                    gate,
                    expected: gate_arity(kind)->0,
                    found: qubits.len(),
                },
            )
        } else {
            match first_duplicate(qubits) {
                Some(q) => Some(IrErrorModel::DuplicateQubit { gate, qubit: q }),
                None => match first_out_of_range(qubits, num_qubits) {
                    Some(q) => Some(IrErrorModel::QubitOutOfRange { qubit: q, declared: num_qubits }),
                    None => None,
                },
            }
        },
    }
}

/// What is wrong with an instruction in a circuit of the given widths.
pub open spec fn instruction_error(
    inst: InstructionModel,
    num_qubits: u32,
    num_clbits: u32,
) -> Option<IrErrorModel> {
    match inst {
        InstructionModel::Gate { kind, qubits } => gate_error(kind, qubits, num_qubits),
        InstructionModel::Measure { qubit, target } => if qubit.0 >= num_qubits {
            Some(IrErrorModel::QubitOutOfRange { qubit, declared: num_qubits })
        } else if target.0 >= num_clbits {
            Some(IrErrorModel::ClbitOutOfRange { clbit: target, declared: num_clbits })
        } else {
            None
        },
        InstructionModel::Reset { qubit } => if qubit.0 >= num_qubits {
            Some(IrErrorModel::QubitOutOfRange { qubit, declared: num_qubits })
        } else {
            None
        },
    }
}

/// The first error in an instruction list, in program order.
pub open spec fn circuit_error(
    insts: Seq<InstructionModel>,
    num_qubits: u32,
    num_clbits: u32,
) -> Option<IrErrorModel>
    decreases insts.len(),
{
    if insts.len() == 0 {
        None
    } else {
        match circuit_error(insts.drop_last(), num_qubits, num_clbits) {
            Some(e) => Some(e),
            None => instruction_error(insts.last(), num_qubits, num_clbits),
        }
    }
}

/// A list of instructions is valid when no instruction has an error.
pub open spec fn insts_valid(insts: Seq<InstructionModel>, num_qubits: u32, num_clbits: u32) -> bool {
    forall|i: int|
        0 <= i < insts.len() ==> #[trigger] instruction_error(insts[i], num_qubits, num_clbits)
            is None
}

/// No first error exists exactly when every instruction is error-free.
pub proof fn lemma_circuit_error_none(insts: Seq<InstructionModel>, num_qubits: u32, num_clbits: u32)
    ensures
        circuit_error(insts, num_qubits, num_clbits) is None <==> insts_valid(
            insts,
            num_qubits,
            num_clbits,
        ),
    decreases insts.len(),
{
    if insts.len() > 0 {
        lemma_circuit_error_none(insts.drop_last(), num_qubits, num_clbits);
        if insts_valid(insts, num_qubits, num_clbits) {
            assert forall|i: int| 0 <= i < insts.drop_last().len() implies #[trigger] instruction_error(
                insts.drop_last()[i],
                num_qubits,
                num_clbits,
            ) is None by {
                assert(instruction_error(insts[i], num_qubits, num_clbits) is None);
            }
            assert(instruction_error(insts[insts.len() - 1], num_qubits, num_clbits) is None);
        }
        if circuit_error(insts, num_qubits, num_clbits) is None {
            assert forall|i: int| 0 <= i < insts.len() implies #[trigger] instruction_error(
                insts[i],
                num_qubits,
                num_clbits,
            ) is None by {
                if i < insts.len() - 1 {
                    assert(insts.drop_last()[i] == insts[i]);
                }
            }
        }
    }
}

/// Operands of a valid gate are distinct.
pub proof fn lemma_no_duplicate_distinct(qs: Seq<QubitId>, i: int, j: int)
    requires
        first_duplicate(qs) is None,
        0 <= i < j < qs.len(),
    ensures
        qs[i] != qs[j],
    decreases qs.len(),
{
    if j < qs.len() - 1 {
        lemma_no_duplicate_distinct(qs.drop_last(), i, j);
    } else {
        assert(qs.drop_last()[i] == qs[i]);
        if qs[i] == qs[j] {
            assert(qs.drop_last().contains(qs.last()));
        }
    }
}

/// Operands of a valid gate are in range.
pub proof fn lemma_in_range(qs: Seq<QubitId>, declared: u32, i: int)
    requires
        first_out_of_range(qs, declared) is None,
        0 <= i < qs.len(),
    ensures
        qs[i].0 < declared,
    decreases qs.len(),
{
    if i < qs.len() - 1 {
        lemma_in_range(qs.drop_last(), declared, i);
    }
}

/// Everything a valid instruction promises about its qubits: each is in
/// range, no two operands of a gate coincide, and a registered gate has its
/// arity.
pub open spec fn inst_well_formed(inst: InstructionModel, num_qubits: u32, num_clbits: u32) -> bool {
    &&& forall|k: int|
        0 <= k < inst_qubits(inst).len() ==> (#[trigger] inst_qubits(inst)[k]).0 < num_qubits
    &&& forall|k: int, l: int|
        0 <= k < l < inst_qubits(inst).len() ==> #[trigger] inst_qubits(inst)[k]
            != #[trigger] inst_qubits(inst)[l]
    &&& inst_qubits(inst).len() > 0
    &&& match inst {
        InstructionModel::Gate { kind, qubits } => gate_arity(kind) is Some ==> qubits.len()
            == gate_arity(kind)->0,
        InstructionModel::Measure { target, .. } => target.0 < num_clbits,
        _ => true,
    }
}

/// A valid instruction is well formed.
pub proof fn lemma_valid_well_formed(inst: InstructionModel, num_qubits: u32, num_clbits: u32)
    requires
        instruction_error(inst, num_qubits, num_clbits) is None,
    ensures
        inst_well_formed(inst, num_qubits, num_clbits),
{
    if let InstructionModel::Gate { kind, qubits } = inst {
        assert forall|k: int| 0 <= k < qubits.len() implies (#[trigger] qubits[k]).0 < num_qubits by {
            lemma_in_range(qubits, num_qubits, k);
        }
        assert forall|k: int, l: int| 0 <= k < l < qubits.len() implies #[trigger] qubits[k]
            != #[trigger] qubits[l] by {
            lemma_no_duplicate_distinct(qubits, k, l);
        }
    }
}

/// The abstract value of a [`Circuit`].
pub struct CircuitModel {
    /// The circuit's name.
    pub name: Seq<char>,
    /// Declared qubit-register width.
    pub num_qubits: u32,
    /// Declared classical-register width.
    pub num_clbits: u32,
    /// The instructions in program order.
    pub instructions: Seq<InstructionModel>,
}

/// An immutable, validated QC-IR circuit.
///
/// Produced only by [`CircuitBuilder::build`], so every reference is in
/// range, every registered gate has its arity, no gate repeats an operand,
/// and every parameter is well formed.
#[derive(Debug, PartialEq)]
pub struct Circuit {
    name: String,
    num_qubits: u32,
    num_clbits: u32,
    instructions: Vec<Instruction>,
}

impl View for Circuit {
    type V = CircuitModel;

    closed spec fn view(&self) -> CircuitModel {
        CircuitModel {
            name: self.name@,
            num_qubits: self.num_qubits,
            num_clbits: self.num_clbits,
            instructions: insts_model(self.instructions@),
        }
    }
}

/// A circuit model is valid when it has no first error.
pub open spec fn circuit_valid(c: CircuitModel) -> bool {
    circuit_error(c.instructions, c.num_qubits, c.num_clbits) is None
}

impl Circuit {
    #[verifier::type_invariant]
    closed spec fn inv(self) -> bool {
        circuit_valid(self@)
    }

    /// Every circuit is valid: a no-op at run time that brings the circuit
    /// invariants into a caller's proof.
    pub(crate) fn lemma_valid(&self)
        ensures
            circuit_valid(self@),
            insts_valid(self@.instructions, self@.num_qubits, self@.num_clbits),
            forall|i: int|
                0 <= i < self@.instructions.len() ==> inst_well_formed(
                    #[trigger] self@.instructions[i],
                    self@.num_qubits,
                    self@.num_clbits,
                ),
    {
        proof {
            use_type_invariant(self);
            lemma_circuit_error_none(self@.instructions, self@.num_qubits, self@.num_clbits);
            assert forall|i: int| 0 <= i < self@.instructions.len() implies inst_well_formed(
                #[trigger] self@.instructions[i],
                self@.num_qubits,
                self@.num_clbits,
            ) by {
                lemma_valid_well_formed(self@.instructions[i], self@.num_qubits, self@.num_clbits);
            }
        }
    }

    /// The circuit's name.
    pub fn name(&self) -> (r: &str)
        ensures
            r@ == self@.name,
    {
        self.name.as_str()
    }

    /// Number of declared qubits; valid qubit ids are `0..num_qubits`.
    pub fn num_qubits(&self) -> (r: u32)
        ensures
            r == self@.num_qubits,
    {
        self.num_qubits
    }

    /// Number of declared classical bits.
    pub fn num_clbits(&self) -> (r: u32)
        ensures
            r == self@.num_clbits,
    {
        self.num_clbits
    }

    /// The instruction sequence in program order.
    pub fn instructions(&self) -> (r: &[Instruction])
        ensures
            insts_model(r@) == self@.instructions,
            r@.len() == self@.instructions.len(),
    {
        self.instructions.as_slice()
    }

    /// Number of instructions.
    pub fn len(&self) -> (r: usize)
        ensures
            r == self@.instructions.len(),
    {
        self.instructions.len()
    }

    /// Whether the circuit has no instructions (the identity circuit).
    pub fn is_empty(&self) -> (r: bool)
        ensures
            r == (self@.instructions.len() == 0),
    {
        self.instructions.len() == 0
    }
}

impl Clone for Circuit {
    fn clone(&self) -> (r: Self)
        ensures
            r@ == self@,
    {
        proof {
            use_type_invariant(self);
        }
        Circuit {
            name: self.name.clone(),
            num_qubits: self.num_qubits,
            num_clbits: self.num_clbits,
            instructions: clone_instructions(self.instructions.as_slice()),
        }
    }
}

/// Builder for [`Circuit`]: the only way to make one.
///
/// Allocation methods hand back typed ids; instruction methods are
/// infallible and chainable; all validation happens in
/// [`CircuitBuilder::build`].
#[derive(Debug)]
pub struct CircuitBuilder {
    name: String,
    num_qubits: u32,
    num_clbits: u32,
    instructions: Vec<Instruction>,
}

impl View for CircuitBuilder {
    type V = CircuitModel;

    closed spec fn view(&self) -> CircuitModel {
        CircuitModel {
            name: self.name@,
            num_qubits: self.num_qubits,
            num_clbits: self.num_clbits,
            instructions: insts_model(self.instructions@),
        }
    }
}

impl CircuitBuilder {
    /// An empty builder for a circuit with the given name.
    pub fn new(name: &str) -> (b: CircuitBuilder)
        ensures
            b@.name == name@,
            b@.num_qubits == 0,
            b@.num_clbits == 0,
            b@.instructions == Seq::<InstructionModel>::empty(),
    {
        let b = CircuitBuilder { name: name.to_string(), num_qubits: 0, num_clbits: 0, instructions: Vec::new() };
        proof {
            assert(insts_model(b.instructions@) =~= Seq::<InstructionModel>::empty());
        }
        b
    }

    /// How many qubits have been allocated so far.
    pub fn num_qubits(&self) -> (r: u32)
        ensures
            r == self@.num_qubits,
    {
        self.num_qubits
    }

    /// How many classical bits have been allocated so far.
    pub fn num_clbits(&self) -> (r: u32)
        ensures
            r == self@.num_clbits,
    {
        self.num_clbits
    }

    /// Allocates a fresh qubit and returns its id.
    pub fn alloc_qubit(&mut self) -> (q: QubitId)
        requires
            old(self)@.num_qubits < u32::MAX,
        ensures
            q.0 == old(self)@.num_qubits,
            final(self)@ == (CircuitModel { num_qubits: (old(self)@.num_qubits + 1) as u32, ..old(self)@ }),
    {
        let id = QubitId(self.num_qubits);
        self.num_qubits = self.num_qubits + 1;
        id
    }

    /// Allocates `n` fresh qubits, returning their ids in order.
    pub fn alloc_qubits(&mut self, n: u32) -> (r: Vec<QubitId>)
        requires
            old(self)@.num_qubits + n <= u32::MAX,
        ensures
            r@.len() == n,
            forall|i: int| 0 <= i < n ==> (#[trigger] r@[i]).0 == old(self)@.num_qubits + i,
            final(self)@ == (CircuitModel { num_qubits: (old(self)@.num_qubits + n) as u32, ..old(self)@ }),
    {
        let mut out: Vec<QubitId> = Vec::new();
        let mut k: u32 = 0;
        while k < n
            invariant
                k <= n,
                self.num_qubits == old(self).num_qubits + k,
                self.name == old(self).name,
                self.num_clbits == old(self).num_clbits,
                self.instructions == old(self).instructions,
                out@.len() == k,
                forall|i: int| 0 <= i < k ==> (#[trigger] out@[i]).0 == old(self)@.num_qubits + i,
                old(self)@.num_qubits + n <= u32::MAX,
            decreases n - k,
        {
            out.push(QubitId(self.num_qubits));
            self.num_qubits = self.num_qubits + 1;
            k += 1;
        }
        out
    }

    /// Allocates a fresh classical bit and returns its id.
    pub fn alloc_clbit(&mut self) -> (c: ClbitId)
        requires
            old(self)@.num_clbits < u32::MAX,
        ensures
            c.0 == old(self)@.num_clbits,
            final(self)@ == (CircuitModel { num_clbits: (old(self)@.num_clbits + 1) as u32, ..old(self)@ }),
    {
        let id = ClbitId(self.num_clbits);
        self.num_clbits = self.num_clbits + 1;
        id
    }

    /// Allocates `n` fresh classical bits, returning their ids in order.
    pub fn alloc_clbits(&mut self, n: u32) -> (r: Vec<ClbitId>)
        requires
            old(self)@.num_clbits + n <= u32::MAX,
        ensures
            r@.len() == n,
            forall|i: int| 0 <= i < n ==> (#[trigger] r@[i]).0 == old(self)@.num_clbits + i,
            final(self)@ == (CircuitModel { num_clbits: (old(self)@.num_clbits + n) as u32, ..old(self)@ }),
    {
        let mut out: Vec<ClbitId> = Vec::new();
        let mut k: u32 = 0;
        while k < n
            invariant
                k <= n,
                self.num_clbits == old(self).num_clbits + k,
                self.name == old(self).name,
                self.num_qubits == old(self).num_qubits,
                self.instructions == old(self).instructions,
                out@.len() == k,
                forall|i: int| 0 <= i < k ==> (#[trigger] out@[i]).0 == old(self)@.num_clbits + i,
                old(self)@.num_clbits + n <= u32::MAX,
            decreases n - k,
        {
            out.push(ClbitId(self.num_clbits));
            self.num_clbits = self.num_clbits + 1;
            k += 1;
        }
        out
    }

    /// Appends an arbitrary instruction.
    pub fn push(&mut self, inst: Instruction)
        ensures
            final(self)@ == (CircuitModel {
                instructions: old(self)@.instructions.push(inst@),
                ..old(self)@
            }),
    {
        self.instructions.push(inst);
        proof {
            assert(insts_model(self.instructions@) =~= insts_model(old(self).instructions@).push(
                inst@,
            ));
        }
    }

    /// Appends an arbitrary gate: the general entry point frontends use.
    pub fn gate(&mut self, kind: GateKind, qubits: Vec<QubitId>) -> (r: &mut Self)
        ensures
            *final(self) == *final(r),
            r@ == (CircuitModel {
                instructions: old(self)@.instructions.push(
                    InstructionModel::Gate { kind: kind@, qubits: qubits@ },
                ),
                ..old(self)@
            }),
    {
        self.push(Instruction::Gate { kind, qubits });
        self
    }

    /// Appends a measurement of `qubit` into `target`.
    pub fn measure(&mut self, qubit: QubitId, target: ClbitId) -> (r: &mut Self)
        ensures
            *final(self) == *final(r),
            r@ == (CircuitModel {
                instructions: old(self)@.instructions.push(
                    InstructionModel::Measure { qubit, target },
                ),
                ..old(self)@
            }),
    {
        self.push(Instruction::Measure { qubit, target });
        self
    }

    /// Appends a reset of `qubit` to `|0⟩`.
    pub fn reset(&mut self, qubit: QubitId) -> (r: &mut Self)
        ensures
            *final(self) == *final(r),
            r@ == (CircuitModel {
                instructions: old(self)@.instructions.push(InstructionModel::Reset { qubit }),
                ..old(self)@
            }),
    {
        self.push(Instruction::Reset { qubit });
        self
    }

    /// Appends a Hadamard on `q`.
    pub fn h(&mut self, q: QubitId) -> (r: &mut Self)
        ensures
            *final(self) == *final(r),
            r@ == (CircuitModel {
                instructions: old(self)@.instructions.push(
                    InstructionModel::Gate { kind: GateModel::H, qubits: seq![q] },
                ),
                ..old(self)@
            }),
    {
        let v = vec![q];
        proof {
            assert(v@ =~= seq![q]);
        }
        self.gate(GateKind::H, v)
    }

    /// Appends a Pauli-X on `q`.
    pub fn x(&mut self, q: QubitId) -> (r: &mut Self)
        ensures
            *final(self) == *final(r),
            r@ == (CircuitModel {
                instructions: old(self)@.instructions.push(
                    InstructionModel::Gate { kind: GateModel::X, qubits: seq![q] },
                ),
                ..old(self)@
            }),
    {
        let v = vec![q];
        proof {
            assert(v@ =~= seq![q]);
        }
        self.gate(GateKind::X, v)
    }

    /// Appends a Pauli-Y on `q`.
    pub fn y(&mut self, q: QubitId) -> (r: &mut Self)
        ensures
            *final(self) == *final(r),
            r@ == (CircuitModel {
                instructions: old(self)@.instructions.push(
                    InstructionModel::Gate { kind: GateModel::Y, qubits: seq![q] },
                ),
                ..old(self)@
            }),
    {
        let v = vec![q];
        proof {
            assert(v@ =~= seq![q]);
        }
        self.gate(GateKind::Y, v)
    }

    /// Appends a Pauli-Z on `q`.
    pub fn z(&mut self, q: QubitId) -> (r: &mut Self)
        ensures
            *final(self) == *final(r),
            r@ == (CircuitModel {
                instructions: old(self)@.instructions.push(
                    InstructionModel::Gate { kind: GateModel::Z, qubits: seq![q] },
                ),
                ..old(self)@
            }),
    {
        let v = vec![q];
        proof {
            assert(v@ =~= seq![q]);
        }
        self.gate(GateKind::Z, v)
    }

    /// Appends `Rx(theta)` on `q`.
    pub fn rx(&mut self, theta: Param, q: QubitId) -> (r: &mut Self)
        ensures
            *final(self) == *final(r),
            r@ == (CircuitModel {
                instructions: old(self)@.instructions.push(
                    InstructionModel::Gate { kind: GateModel::Rx(theta@), qubits: seq![q] },
                ),
                ..old(self)@
            }),
    {
        let v = vec![q];
        proof {
            assert(v@ =~= seq![q]);
        }
        self.gate(GateKind::Rx(theta), v)
    }

    /// Appends `Ry(theta)` on `q`.
    pub fn ry(&mut self, theta: Param, q: QubitId) -> (r: &mut Self)
        ensures
            *final(self) == *final(r),
            r@ == (CircuitModel {
                instructions: old(self)@.instructions.push(
                    InstructionModel::Gate { kind: GateModel::Ry(theta@), qubits: seq![q] },
                ),
                ..old(self)@
            }),
    {
        let v = vec![q];
        proof {
            assert(v@ =~= seq![q]);
        }
        self.gate(GateKind::Ry(theta), v)
    }

    /// Appends `Rz(theta)` on `q`.
    pub fn rz(&mut self, theta: Param, q: QubitId) -> (r: &mut Self)
        ensures
            *final(self) == *final(r),
            r@ == (CircuitModel {
                instructions: old(self)@.instructions.push(
                    InstructionModel::Gate { kind: GateModel::Rz(theta@), qubits: seq![q] },
                ),
                ..old(self)@
            }),
    {
        let v = vec![q];
        proof {
            assert(v@ =~= seq![q]);
        }
        self.gate(GateKind::Rz(theta), v)
    }

    /// Appends a CNOT with the given control and target.
    pub fn cx(&mut self, control: QubitId, target: QubitId) -> (r: &mut Self)
        ensures
            *final(self) == *final(r),
            r@ == (CircuitModel {
                instructions: old(self)@.instructions.push(
                    InstructionModel::Gate { kind: GateModel::Cx, qubits: seq![control, target] },
                ),
                ..old(self)@
            }),
    {
        self.gate(GateKind::Cx, vec![control, target])
    }

    /// Appends a controlled-Z with the given control and target.
    pub fn cz(&mut self, control: QubitId, target: QubitId) -> (r: &mut Self)
        ensures
            *final(self) == *final(r),
            r@ == (CircuitModel {
                instructions: old(self)@.instructions.push(
                    InstructionModel::Gate { kind: GateModel::Cz, qubits: seq![control, target] },
                ),
                ..old(self)@
            }),
    {
        self.gate(GateKind::Cz, vec![control, target])
    }

    /// Appends a swap of `a` and `b`.
    pub fn swap(&mut self, a: QubitId, b: QubitId) -> (r: &mut Self)
        ensures
            *final(self) == *final(r),
            r@ == (CircuitModel {
                instructions: old(self)@.instructions.push(
                    InstructionModel::Gate { kind: GateModel::Swap, qubits: seq![a, b] },
                ),
                ..old(self)@
            }),
    {
        self.gate(GateKind::Swap, vec![a, b])
    }

    /// Appends a Toffoli with two controls and a target.
    pub fn ccx(&mut self, c0: QubitId, c1: QubitId, target: QubitId) -> (r: &mut Self)
        ensures
            *final(self) == *final(r),
            r@ == (CircuitModel {
                instructions: old(self)@.instructions.push(
                    InstructionModel::Gate { kind: GateModel::Ccx, qubits: seq![c0, c1, target] },
                ),
                ..old(self)@
            }),
    {
        self.gate(GateKind::Ccx, vec![c0, c1, target])
    }

    /// Validates every invariant and produces an immutable [`Circuit`].
    ///
    /// Returns the first error found, in instruction order and, within an
    /// instruction, in the order [`gate_error`] and [`instruction_error`]
    /// check.
    pub fn build(&self) -> (r: Result<Circuit, IrError>)
        ensures
            match r {
                Ok(c) => c@ == self@ && circuit_error(
                    self@.instructions,
                    self@.num_qubits,
                    self@.num_clbits,
                ) is None,
                Err(e) => circuit_error(self@.instructions, self@.num_qubits, self@.num_clbits)
                    == Some(e@),
            },
    {
        let mut i: usize = 0;
        while i < self.instructions.len()
            invariant
                i <= self.instructions@.len(),
                circuit_error(
                    insts_model(self.instructions@).take(i as int),
                    self.num_qubits,
                    self.num_clbits,
                ) is None,
            decreases self.instructions@.len() - i,
        {
            let ghost prefix = insts_model(self.instructions@).take(i as int + 1);
            proof {
                assert(prefix.drop_last() =~= insts_model(self.instructions@).take(i as int));
            }
            match validate_instruction(&self.instructions[i], self.num_qubits, self.num_clbits) {
                Err(e) => {
                    proof {
                        lemma_first_error_is_global(
                            insts_model(self.instructions@),
                            i as int,
                            self.num_qubits,
                            self.num_clbits,
                        );
                    }
                    return Err(e);
                },
                Ok(()) => {},
            }
            i += 1;
        }
        proof {
            assert(insts_model(self.instructions@).take(self.instructions@.len() as int)
                =~= insts_model(self.instructions@));
        }
        Ok(
            Circuit {
                name: self.name.clone(),
                num_qubits: self.num_qubits,
                num_clbits: self.num_clbits,
                instructions: clone_instructions(self.instructions.as_slice()),
            },
        )
    }
}

/// If a prefix is error free and the next instruction fails, that failure is
/// the first error of the whole list.
proof fn lemma_first_error_is_global(
    insts: Seq<InstructionModel>,
    i: int,
    num_qubits: u32,
    num_clbits: u32,
)
    requires
        0 <= i < insts.len(),
        circuit_error(insts.take(i), num_qubits, num_clbits) is None,
        instruction_error(insts[i], num_qubits, num_clbits) is Some,
    ensures
        circuit_error(insts, num_qubits, num_clbits) == instruction_error(
            insts[i],
            num_qubits,
            num_clbits,
        ),
    decreases insts.len(),
{
    assert(insts.take(i + 1).drop_last() =~= insts.take(i));
    if i + 1 < insts.len() {
        assert(insts.drop_last().take(i) =~= insts.take(i));
        lemma_first_error_is_global(insts.drop_last(), i, num_qubits, num_clbits);
        assert(insts.drop_last()[i] == insts[i]);
    } else {
        assert(insts.drop_last() =~= insts.take(i));
    }
}

/// Checks one instruction.
fn validate_instruction(inst: &Instruction, num_qubits: u32, num_clbits: u32) -> (r: Result<
    (),
    IrError,
>)
    ensures
        match r {
            Ok(()) => instruction_error(inst@, num_qubits, num_clbits) is None,
            Err(e) => instruction_error(inst@, num_qubits, num_clbits) == Some(e@),
        },
{
    match inst {
        Instruction::Gate { kind, qubits } => validate_gate(kind, qubits, num_qubits),
        Instruction::Measure { qubit, target } => {
            if qubit.0 >= num_qubits {
                return Err(IrError::QubitOutOfRange { qubit: *qubit, declared: num_qubits });
            }
            if target.0 >= num_clbits {
                return Err(IrError::ClbitOutOfRange { clbit: *target, declared: num_clbits });
            }
            Ok(())
        },
        Instruction::Reset { qubit } => {
            if qubit.0 >= num_qubits {
                return Err(IrError::QubitOutOfRange { qubit: *qubit, declared: num_qubits });
            }
            Ok(())
        },
    }
}

/// Checks one gate application.
fn validate_gate(kind: &GateKind, qubits: &Vec<QubitId>, num_qubits: u32) -> (r: Result<
    (),
    IrError,
>)
    ensures
        match r {
            Ok(()) => gate_error(kind@, qubits@, num_qubits) is None,
            Err(e) => gate_error(kind@, qubits@, num_qubits) == Some(e@),
        },
{
    let params = kind.params();
    let ghost gate = gate_mnemonic(kind@);
    let ghost ps = gate_params(kind@);
    let mut i: usize = 0;
    while i < params.len()
        invariant
            i <= params@.len(),
            params@.map_values(|p: Param| p@) == ps,
            ps == gate_params(kind@),
            gate == gate_mnemonic(kind@),
            params_error(ps.take(i as int), gate) is None,
        decreases params@.len() - i,
    {
        proof {
            assert(ps.take(i as int + 1).drop_last() =~= ps.take(i as int));
            assert(ps[i as int] == params@[i as int]@);
        }
        if !params[i].is_valid() {
            proof {
                lemma_params_first_error(ps, i as int, gate);
            }
            let mnemonic = kind.mnemonic();
            proof {
                assert(params_error(ps, gate) == param_error(params@[i as int]@, gate));
                assert(mnemonic@ == gate);
            }
            match &params[i] {
                Param::Concrete(_) => {
                    return Err(IrError::NonFiniteAngle { gate: mnemonic });
                },
                Param::Symbol(_) => {
                    return Err(IrError::EmptyParameterSymbol { gate: mnemonic });
                },
            }
        }
        i += 1;
    }
    proof {
        assert(ps.take(params@.len() as int) =~= ps);
    }
    match kind {
        GateKind::Opaque { name, .. } => {
            if name.as_str().unicode_len() == 0 {
                return Err(IrError::EmptyOpaqueName);
            }
            if qubits.len() == 0 {
                return Err(IrError::EmptyOpaqueOperands { gate: kind.mnemonic() });
            }
        },
        _ => {},
    }
    match kind.arity() {
        Some(expected) => {
            if qubits.len() != expected {
                return Err(
                    IrError::GateArityMismatch {
                        gate: kind.mnemonic(),
                        expected,
                        found: qubits.len(),
                    },
                );
            }
        },
        None => {},
    }
    match find_duplicate(qubits) {
        Some(q) => {
            return Err(IrError::DuplicateQubit { gate: kind.mnemonic(), qubit: q });
        },
        None => {},
    }
    match find_out_of_range(qubits, num_qubits) {
        Some(q) => {
            return Err(IrError::QubitOutOfRange { qubit: q, declared: num_qubits });
        },
        None => {},
    }
    Ok(())
}

proof fn lemma_params_first_error(ps: Seq<ParamModel>, i: int, gate: Seq<char>)
    requires
        0 <= i < ps.len(),
        params_error(ps.take(i), gate) is None,
        param_error(ps[i], gate) is Some,
    ensures
        params_error(ps, gate) == param_error(ps[i], gate),
    decreases ps.len(),
{
    assert(ps.take(i + 1).drop_last() =~= ps.take(i));
    if i + 1 < ps.len() {
        assert(ps.drop_last().take(i) =~= ps.take(i));
        lemma_params_first_error(ps.drop_last(), i, gate);
        assert(ps.drop_last()[i] == ps[i]);
    } else {
        assert(ps.drop_last() =~= ps.take(i));
    }
}

/// The first operand that repeats an earlier one.
fn find_duplicate(qubits: &Vec<QubitId>) -> (r: Option<QubitId>)
    ensures
        r == first_duplicate(qubits@),
{
    let mut i: usize = 0;
    while i < qubits.len()
        invariant
            i <= qubits@.len(),
            first_duplicate(qubits@.take(i as int)) is None,
        decreases qubits@.len() - i,
    {
        let ghost prefix = qubits@.take(i as int + 1);
        proof {
            assert(prefix.drop_last() =~= qubits@.take(i as int));
        }
        let mut j: usize = 0;
        let mut seen = false;
        while j < i
            invariant
                j <= i < qubits@.len(),
                seen == exists|k: int| 0 <= k < j && qubits@[k] == qubits@[i as int],
            decreases i - j,
        {
            if qubits[j].0 == qubits[i].0 {
                seen = true;
            }
            j += 1;
        }
        proof {
            let pre = qubits@.take(i as int);
            if seen {
                let k = choose|k: int| 0 <= k < i && qubits@[k] == qubits@[i as int];
                assert(pre[k] == qubits@[i as int]);
            }
            if pre.contains(qubits@[i as int]) {
                let k = choose|k: int| 0 <= k < pre.len() && pre[k] == qubits@[i as int];
                assert(qubits@[k] == qubits@[i as int]);
            }
        }
        if seen {
            proof {
                lemma_duplicate_first(qubits@, i as int);
            }
            return Some(qubits[i]);
        }
        i += 1;
    }
    proof {
        assert(qubits@.take(qubits@.len() as int) =~= qubits@);
    }
    None
}

proof fn lemma_duplicate_first(qs: Seq<QubitId>, i: int)
    requires
        0 <= i < qs.len(),
        first_duplicate(qs.take(i)) is None,
        qs.take(i).contains(qs[i]),
    ensures
        first_duplicate(qs) == Some(qs[i]),
    decreases qs.len(),
{
    assert(qs.take(i + 1).drop_last() =~= qs.take(i));
    if i + 1 < qs.len() {
        assert(qs.drop_last().take(i) =~= qs.take(i));
        lemma_duplicate_first(qs.drop_last(), i);
    } else {
        assert(qs.drop_last() =~= qs.take(i));
    }
}

/// The first operand outside the register.
fn find_out_of_range(qubits: &Vec<QubitId>, num_qubits: u32) -> (r: Option<QubitId>)
    ensures
        r == first_out_of_range(qubits@, num_qubits),
{
    let mut i: usize = 0;
    while i < qubits.len()
        invariant
            i <= qubits@.len(),
            first_out_of_range(qubits@.take(i as int), num_qubits) is None,
        decreases qubits@.len() - i,
    {
        proof {
            assert(qubits@.take(i as int + 1).drop_last() =~= qubits@.take(i as int));
        }
        if qubits[i].0 >= num_qubits {
            proof {
                lemma_range_first(qubits@, i as int, num_qubits);
            }
            return Some(qubits[i]);
        }
        i += 1;
    }
    proof {
        assert(qubits@.take(qubits@.len() as int) =~= qubits@);
    }
    None
}

proof fn lemma_range_first(qs: Seq<QubitId>, i: int, declared: u32)
    requires
        0 <= i < qs.len(),
        first_out_of_range(qs.take(i), declared) is None,
        qs[i].0 >= declared,
    ensures
        first_out_of_range(qs, declared) == Some(qs[i]),
    decreases qs.len(),
{
    assert(qs.take(i + 1).drop_last() =~= qs.take(i));
    if i + 1 < qs.len() {
        assert(qs.drop_last().take(i) =~= qs.take(i));
        lemma_range_first(qs.drop_last(), i, declared);
    } else {
        assert(qs.drop_last() =~= qs.take(i));
    }
}

} // verus!
