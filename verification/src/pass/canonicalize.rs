//! Canonicalization: remove operations that are exactly the identity.
//!
//! It removes the identity gate and `Rx`/`Ry`/`Rz`/`P` with a concrete angle
//! of exactly zero (either zero), each of which is the identity matrix with
//! no global-phase caveat. Nothing else: rewrites that hold only up to a
//! global phase are not applied, and "close to zero" is not zero.
use vstd::prelude::*;

use crate::ir::qc::{
    circuit_error, insts_model, insts_valid, instruction_error, lemma_circuit_error_none, Circuit,
    Instruction, InstructionModel,
};
use crate::ir::types::{bits_equal, Angle, GateKind, GateModel, Param, ParamModel};
use crate::pass::{rebuild, rebuilt, PassError, PassOutput};
use crate::text::{decimal, push_decimal, push_str};

verus! {

/// A parameter that is a concrete angle equal to zero.
pub open spec fn zero_angle(p: ParamModel) -> bool {
    match p {
        ParamModel::Concrete(bits) => bits_equal(bits, 0),
        ParamModel::Symbol(_) => false,
    }
}

/// An instruction that provably does nothing at all: the identity gate, or
/// a rotation or phase by exactly zero. Measurement and reset always do
/// something.
pub open spec fn is_identity_op(i: InstructionModel) -> bool {
    match i {
        InstructionModel::Gate { kind, .. } => match kind {
            GateModel::I => true,
            GateModel::Rx(p) => zero_angle(p),
            GateModel::Ry(p) => zero_angle(p),
            GateModel::Rz(p) => zero_angle(p),
            GateModel::P(p) => zero_angle(p),
            _ => false,
        },
        _ => false,
    }
}

/// The instructions that are not identities, in order.
pub open spec fn canonical(s: Seq<InstructionModel>) -> Seq<InstructionModel>
    decreases s.len(),
{
    if s.len() == 0 {
        Seq::empty()
    } else if is_identity_op(s.last()) {
        canonical(s.drop_last())
    } else {
        canonical(s.drop_last()).push(s.last())
    }
}

/// The note a canonicalization that removed `n` operations records.
pub open spec fn removed_note(n: nat) -> Seq<char> {
    "removed "@ + decimal(n) + " identity operation(s)"@
}

/// Removes provably-identity operations.
#[derive(Debug, Clone, Copy, Default)]
pub struct Canonicalize;

impl Canonicalize {
    /// Stable identifier, used to enable or disable the pass.
    pub fn id(&self) -> (r: &'static str)
        ensures
            r@ == "canonicalize"@,
    {
        "canonicalize"
    }

    /// One-line description, shown in reports.
    pub fn description(&self) -> (r: &'static str)
        ensures
            r@ == "remove identity gates and exact zero-angle rotations"@,
    {
        "remove identity gates and exact zero-angle rotations"
    }
}

/// Whether a parameter is exactly zero; a symbol is never assumed to be
/// anything.
fn is_exactly_zero(param: &Param) -> (r: bool)
    ensures
        r == zero_angle(param@),
{
    match param.as_concrete() {
        Some(angle) => angle.value_eq(Angle::from_bits(0)),
        None => false,
    }
}

/// Whether this instruction provably does nothing at all.
fn is_identity(inst: &Instruction) -> (r: bool)
    ensures
        r == is_identity_op(inst@),
{
    match inst {
        Instruction::Gate { kind, .. } => match kind {
            GateKind::I => true,
            GateKind::Rx(p) => is_exactly_zero(p),
            GateKind::Ry(p) => is_exactly_zero(p),
            GateKind::Rz(p) => is_exactly_zero(p),
            GateKind::P(p) => is_exactly_zero(p),
            _ => false,
        },
        _ => false,
    }
}

impl Canonicalize {
    /// Runs the pass: drops every identity operation, keeping the rest in
    /// order. Reports a change, with a note counting the removals, exactly
    /// when something was removed. It never fails on a valid circuit.
    pub fn run(&self, circuit: &Circuit) -> (r: Result<PassOutput, PassError>)
        ensures
            r is Ok,
            r->Ok_0.circuit@ == (crate::ir::qc::CircuitModel {
                instructions: canonical(circuit@.instructions),
                ..circuit@
            }),
            r->Ok_0.changed == (canonical(circuit@.instructions).len() < circuit@.instructions.len()),
            r->Ok_0.changed ==> r->Ok_0.notes@.len() == 1 && r->Ok_0.notes@[0]@ == removed_note(
                (circuit@.instructions.len() - canonical(circuit@.instructions).len()) as nat,
            ),
            !r->Ok_0.changed ==> r->Ok_0.notes@.len() == 0,
    {
        circuit.lemma_valid();
        let insts = circuit.instructions();
        let ghost model = circuit@.instructions;
        let mut kept: Vec<Instruction> = Vec::new();
        let mut i: usize = 0;
        proof {
            assert(insts_model(kept@) =~= canonical(model.take(0)));
        }
        while i < insts.len()
            invariant
                i <= insts@.len(),
                insts_model(insts@) == model,
                insts@.len() == model.len(),
                insts_model(kept@) == canonical(model.take(i as int)),
            decreases insts@.len() - i,
        {
            proof {
                assert(model.take(i + 1).drop_last() =~= model.take(i as int));
                assert(model.take(i + 1).last() == insts@[i as int]@);
            }
            if !is_identity(&insts[i]) {
                let ghost before = insts_model(kept@);
                kept.push(insts[i].clone());
                proof {
                    assert(insts_model(kept@) =~= before.push(insts@[i as int]@));
                }
            }
            i += 1;
        }
        proof {
            assert(model.take(model.len() as int) =~= model);
            lemma_canonical_len(model);
        }
        let removed = insts.len() - kept.len();
        if removed == 0 {
            proof {
                lemma_canonical_same_len(model);
            }
            return Ok(PassOutput::unchanged(circuit.clone()));
        }
        proof {
            lemma_canonical_valid(model, circuit@.num_qubits, circuit@.num_clbits);
            lemma_circuit_error_none(canonical(model), circuit@.num_qubits, circuit@.num_clbits);
        }
        let rebuilt_circuit = match rebuild(self.id(), circuit, &kept) {
            Ok(c) => c,
            Err(e) => {
                return Err(e);
            },
        };
        let mut note = String::new();
        push_str(&mut note, "removed ");
        push_decimal(&mut note, removed as u64);
        push_str(&mut note, " identity operation(s)");
        proof {
            assert(note@ =~= removed_note(removed as nat));
        }
        let mut notes: Vec<String> = Vec::new();
        notes.push(note);
        Ok(PassOutput { circuit: rebuilt_circuit, changed: true, notes })
    }
}

/// Canonicalization never lengthens a circuit.
pub proof fn lemma_canonical_len(s: Seq<InstructionModel>)
    ensures
        canonical(s).len() <= s.len(),
    decreases s.len(),
{
    if s.len() > 0 {
        lemma_canonical_len(s.drop_last());
    }
}

/// A circuit keeps its length under canonicalization exactly when it holds
/// no identity operation, and is then left as it is.
pub proof fn lemma_canonical_same_len(s: Seq<InstructionModel>)
    requires
        canonical(s).len() == s.len(),
    ensures
        canonical(s) == s,
    decreases s.len(),
{
    if s.len() > 0 {
        lemma_canonical_len(s.drop_last());
        if is_identity_op(s.last()) {
            assert(false);
        } else {
            lemma_canonical_same_len(s.drop_last());
            assert(s =~= s.drop_last().push(s.last()));
        }
    }
}

/// Every instruction canonicalization keeps was in the input.
pub proof fn lemma_canonical_from_input(s: Seq<InstructionModel>)
    ensures
        forall|k: int| 0 <= k < canonical(s).len() ==> s.contains(#[trigger] canonical(s)[k]),
    decreases s.len(),
{
    if s.len() > 0 {
        lemma_canonical_from_input(s.drop_last());
        let c = canonical(s);
        assert forall|k: int| 0 <= k < c.len() implies s.contains(#[trigger] c[k]) by {
            let d = canonical(s.drop_last());
            if k < d.len() {
                assert(c[k] == d[k]);
                let j = choose|j: int| 0 <= j < s.drop_last().len() && s.drop_last()[j] == d[k];
                assert(s[j] == d[k]);
            } else {
                assert(c[k] == s.last());
                assert(s[s.len() - 1] == s.last());
            }
        }
    }
}

/// Dropping instructions from a valid circuit leaves a valid circuit, so
/// canonicalization cannot make a circuit invalid.
pub proof fn lemma_canonical_valid(s: Seq<InstructionModel>, num_qubits: u32, num_clbits: u32)
    requires
        insts_valid(s, num_qubits, num_clbits),
    ensures
        insts_valid(canonical(s), num_qubits, num_clbits),
{
    lemma_canonical_from_input(s);
    let c = canonical(s);
    assert forall|k: int| 0 <= k < c.len() implies #[trigger] instruction_error(
        c[k],
        num_qubits,
        num_clbits,
    ) is None by {
        assert(s.contains(c[k]));
        let j = choose|j: int| 0 <= j < s.len() && s[j] == c[k];
        assert(instruction_error(s[j], num_qubits, num_clbits) is None);
    }
}

/// Canonicalization leaves no identity operation behind.
pub proof fn lemma_canonical_no_identity(s: Seq<InstructionModel>)
    ensures
        forall|k: int| 0 <= k < canonical(s).len() ==> !is_identity_op(#[trigger] canonical(s)[k]),
    decreases s.len(),
{
    if s.len() > 0 {
        lemma_canonical_no_identity(s.drop_last());
        let c = canonical(s);
        let d = canonical(s.drop_last());
        assert forall|k: int| 0 <= k < c.len() implies !is_identity_op(#[trigger] c[k]) by {
            if k < d.len() {
                assert(c[k] == d[k]);
            }
        }
    }
}

/// Canonicalizing twice is canonicalizing once.
pub proof fn lemma_canonical_idempotent(s: Seq<InstructionModel>)
    ensures
        canonical(canonical(s)) == canonical(s),
{
    lemma_canonical_no_identity(s);
    lemma_canonical_fixes_clean(canonical(s));
}

/// A sequence without identity operations is left as it is.
proof fn lemma_canonical_fixes_clean(s: Seq<InstructionModel>)
    requires
        forall|k: int| 0 <= k < s.len() ==> !is_identity_op(#[trigger] s[k]),
    ensures
        canonical(s) == s,
    decreases s.len(),
{
    if s.len() > 0 {
        assert forall|k: int| 0 <= k < s.drop_last().len() implies !is_identity_op(
            #[trigger] s.drop_last()[k],
        ) by {
            assert(s.drop_last()[k] == s[k]);
        }
        lemma_canonical_fixes_clean(s.drop_last());
        assert(!is_identity_op(s[s.len() - 1]));
        assert(s =~= s.drop_last().push(s.last()));
    }
}

} // verus!
