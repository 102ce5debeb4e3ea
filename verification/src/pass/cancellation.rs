//! Gate cancellation: remove adjacent gate/inverse-gate pairs.
//!
//! Two operations cancel when the second immediately follows the first **on
//! every wire the first touches** (see [`crate::pass::adjacency`]), they act
//! on the identical operand list in order, and their kinds are inverse by a
//! deliberately conservative table:
//!
//! | Gates | Rule |
//! |---|---|
//! | `X Y Z H Cx Cy Cz Swap Ccx` | self-inverse |
//! | `S`↔`Sdg`, `T`↔`Tdg` | mutual inverses |
//! | `Rx Ry Rz P` | inverse iff both parameters are concrete and exactly negate |
//! | `U`, `Opaque`, `I` | never cancelled |
//!
//! Rotation cancellation requires angles that *exactly* negate; no epsilon
//! is applied.
use vstd::prelude::*;

use crate::ir::convert::{
    body_edges, lemma_first_user, next_user, qco_edges, qco_fits, qubit_edges, inst_edges,
};
use crate::ir::error::IrError;
use crate::ir::qc::{
    circuit_error, inst_qubits, insts_model, insts_valid, lemma_circuit_error_none, Circuit,
    CircuitModel, Instruction, InstructionModel,
};
use crate::ir::qco::wire_total;
use crate::ir::types::{
    bits_equal, bits_negated, gate_mnemonic, gate_params, GateKind, GateModel, Param, ParamModel,
    MAGNITUDE_MASK,
};
use crate::pass::adjacency::{matched_pair, opt_nat, unanimous_next, unanimous_successors};
use crate::pass::{rebuild, rebuilt, PassError, PassOutput};
use crate::text::{decimal, push_decimal, push_str};

verus! {

/// Whether two parameters are concrete and exactly negate each other.
pub open spec fn params_negate(p: ParamModel, q: ParamModel) -> bool {
    match (p, q) {
        (ParamModel::Concrete(a), ParamModel::Concrete(b)) => bits_equal(a, bits_negated(b)),
        _ => false,
    }
}

/// Whether applying `a` then `b` is, by the table, the identity.
pub open spec fn inverse_pair(a: GateModel, b: GateModel) -> bool {
    match (a, b) {
        (GateModel::X, GateModel::X) => true,
        (GateModel::Y, GateModel::Y) => true,
        (GateModel::Z, GateModel::Z) => true,
        (GateModel::H, GateModel::H) => true,
        (GateModel::Cx, GateModel::Cx) => true,
        (GateModel::Cy, GateModel::Cy) => true,
        (GateModel::Cz, GateModel::Cz) => true,
        (GateModel::Swap, GateModel::Swap) => true,
        (GateModel::Ccx, GateModel::Ccx) => true,
        (GateModel::S, GateModel::Sdg) => true,
        (GateModel::Sdg, GateModel::S) => true,
        (GateModel::T, GateModel::Tdg) => true,
        (GateModel::Tdg, GateModel::T) => true,
        (GateModel::Rx(p), GateModel::Rx(q)) => params_negate(p, q),
        (GateModel::Ry(p), GateModel::Ry(q)) => params_negate(p, q),
        (GateModel::Rz(p), GateModel::Rz(q)) => params_negate(p, q),
        (GateModel::P(p), GateModel::P(q)) => params_negate(p, q),
        _ => false,
    }
}

/// Whether instructions `i` and `p` are two gates on the identical operand
/// list whose kinds are inverse.
pub open spec fn cancels(insts: Seq<InstructionModel>, i: nat, p: nat) -> bool {
    &&& insts[i as int] is Gate
    &&& insts[p as int] is Gate
    &&& insts[i as int]->qubits == insts[p as int]->qubits
    &&& inverse_pair(insts[i as int]->kind, insts[p as int]->kind)
}

/// The indices marked for deletion after greedily considering the first `i`
/// instructions in ascending order: an instruction not yet marked pairs
/// with its unanimous successor when that is not yet marked and the two
/// cancel.
pub open spec fn doomed_upto(insts: Seq<InstructionModel>, i: nat) -> Set<nat>
    decreases i,
{
    if i == 0 {
        Set::empty()
    } else {
        let d = doomed_upto(insts, (i - 1) as nat);
        let k = (i - 1) as nat;
        if d.contains(k) {
            d
        } else {
            match unanimous_next(insts, k) {
                Some(p) => if !d.contains(p) && cancels(insts, k, p) {
                    d.insert(k).insert(p)
                } else {
                    d
                },
                None => d,
            }
        }
    }
}

/// The indices one round of cancellation deletes.
pub open spec fn doomed(insts: Seq<InstructionModel>) -> Set<nat> {
    doomed_upto(insts, insts.len())
}

/// The first `n` instructions without the marked ones, in order.
pub open spec fn kept_upto(insts: Seq<InstructionModel>, d: Set<nat>, n: nat) -> Seq<InstructionModel>
    decreases n,
{
    if n == 0 {
        Seq::empty()
    } else if d.contains((n - 1) as nat) {
        kept_upto(insts, d, (n - 1) as nat)
    } else {
        kept_upto(insts, d, (n - 1) as nat).push(insts[n - 1])
    }
}

/// Whether a round would delete anything.
pub open spec fn has_cancellable(insts: Seq<InstructionModel>) -> bool {
    exists|i: int| 0 <= i < insts.len() && #[trigger] doomed(insts).contains(i as nat)
}

/// One round of cancellation.
pub open spec fn cancel_round(insts: Seq<InstructionModel>) -> Seq<InstructionModel> {
    kept_upto(insts, doomed(insts), insts.len())
}

/// Rounds of cancellation until none deletes anything.
pub open spec fn cancel_fix(insts: Seq<InstructionModel>) -> Seq<InstructionModel>
    decreases insts.len(),
{
    if has_cancellable(insts) {
        proof {
            let i = choose|i: int| 0 <= i < insts.len() && #[trigger] doomed(insts).contains(i as nat);
            lemma_kept_shorter(insts, doomed(insts), insts.len(), i as nat);
        }
        cancel_fix(cancel_round(insts))
    } else {
        insts
    }
}

/// The pairs cancelled over all rounds: half of what each round deletes.
pub open spec fn cancel_pairs(insts: Seq<InstructionModel>) -> nat
    decreases insts.len(),
{
    if has_cancellable(insts) {
        proof {
            let i = choose|i: int| 0 <= i < insts.len() && #[trigger] doomed(insts).contains(i as nat);
            lemma_kept_shorter(insts, doomed(insts), insts.len(), i as nat);
        }
        ((insts.len() - cancel_round(insts).len()) / 2) as nat + cancel_pairs(cancel_round(insts))
    } else {
        0
    }
}

/// The note a cancelling run reports.
pub open spec fn cancelled_note(n: nat) -> Seq<char> {
    "cancelled "@ + decimal(n) + " inverse pair(s)"@
}

/// The result of the pass on a circuit: every round of cancellation applied.
pub open spec fn cancelled_circuit(c: CircuitModel) -> CircuitModel {
    CircuitModel { instructions: cancel_fix(c.instructions), ..c }
}

/// Dropping instructions never lengthens a list, and dropping one shortens
/// it.
pub proof fn lemma_kept_shorter(insts: Seq<InstructionModel>, d: Set<nat>, n: nat, i: nat)
    ensures
        kept_upto(insts, d, n).len() <= n,
        i < n && d.contains(i) ==> kept_upto(insts, d, n).len() < n,
    decreases n,
{
    if n > 0 {
        lemma_kept_shorter(insts, d, (n - 1) as nat, i);
    }
}

/// Every kept instruction is one of the input instructions.
pub proof fn lemma_kept_from(insts: Seq<InstructionModel>, d: Set<nat>, n: nat)
    requires
        n <= insts.len(),
    ensures
        forall|y: int|
            0 <= y < kept_upto(insts, d, n).len() ==> exists|j: int|
                0 <= j < n && #[trigger] kept_upto(insts, d, n)[y] == insts[j],
    decreases n,
{
    if n > 0 {
        lemma_kept_from(insts, d, (n - 1) as nat);
        let prev = kept_upto(insts, d, (n - 1) as nat);
        let cur = kept_upto(insts, d, n);
        assert forall|y: int| 0 <= y < cur.len() implies exists|j: int|
            0 <= j < n && #[trigger] cur[y] == insts[j] by {
            if y < prev.len() {
                assert(cur[y] == prev[y]);
                let j = choose|j: int| 0 <= j < n - 1 && #[trigger] prev[y] == insts[j];
                assert(cur[y] == insts[j]);
            } else {
                assert(cur[y] == insts[n - 1]);
            }
        }
    }
}

/// The edge count an instruction contributes to its dependency graph.
pub open spec fn edge_weight(inst: InstructionModel) -> nat {
    inst_qubits(inst).len() + if inst is Measure {
        1nat
    } else {
        0nat
    }
}

/// The edge count a list of instructions contributes.
pub open spec fn total_weight(s: Seq<InstructionModel>) -> nat
    decreases s.len(),
{
    if s.len() == 0 {
        0
    } else {
        total_weight(s.drop_last()) + edge_weight(s.last())
    }
}

/// The body edges of a program number its total weight.
pub proof fn lemma_body_len(insts: Seq<InstructionModel>, n: nat, num_qubits: u32, num_clbits: u32)
    requires
        n <= insts.len(),
    ensures
        body_edges(insts, n, num_qubits, num_clbits).len() == total_weight(insts.take(n as int)),
    decreases n,
{
    if n > 0 {
        lemma_body_len(insts, (n - 1) as nat, num_qubits, num_clbits);
        assert(insts.take(n as int).drop_last() =~= insts.take(n - 1));
        assert(qubit_edges(insts, (n - 1) as nat, num_qubits, num_clbits).len() == inst_qubits(
            insts[n - 1],
        ).len());
    }
}

/// Dropping instructions never adds edges.
pub proof fn lemma_kept_weight(insts: Seq<InstructionModel>, d: Set<nat>, n: nat)
    requires
        n <= insts.len(),
    ensures
        total_weight(kept_upto(insts, d, n)) <= total_weight(insts.take(n as int)),
    decreases n,
{
    if n > 0 {
        lemma_kept_weight(insts, d, (n - 1) as nat);
        assert(insts.take(n as int).drop_last() =~= insts.take(n - 1));
        if !d.contains((n - 1) as nat) {
            let prev = kept_upto(insts, d, (n - 1) as nat);
            assert(prev.push(insts[n - 1]).drop_last() =~= prev);
        }
    }
}

/// One round keeps the circuit valid and its graph within bounds.
pub proof fn lemma_round_ok(insts: Seq<InstructionModel>, num_qubits: u32, num_clbits: u32)
    requires
        circuit_error(insts, num_qubits, num_clbits) is None,
        qco_fits(insts, num_qubits, num_clbits),
    ensures
        circuit_error(cancel_round(insts), num_qubits, num_clbits) is None,
        qco_fits(cancel_round(insts), num_qubits, num_clbits),
{
    let n = insts.len();
    let k = cancel_round(insts);
    lemma_circuit_error_none(insts, num_qubits, num_clbits);
    lemma_kept_from(insts, doomed(insts), n);
    assert forall|y: int| 0 <= y < k.len() implies #[trigger] crate::ir::qc::instruction_error(
        k[y],
        num_qubits,
        num_clbits,
    ) is None by {
        let j = choose|j: int| 0 <= j < n && #[trigger] k[y] == insts[j];
        assert(crate::ir::qc::instruction_error(insts[j], num_qubits, num_clbits) is None);
    }
    lemma_circuit_error_none(k, num_qubits, num_clbits);
    lemma_kept_shorter(insts, doomed(insts), n, 0);
    lemma_body_len(insts, n, num_qubits, num_clbits);
    lemma_body_len(k, k.len(), num_qubits, num_clbits);
    lemma_kept_weight(insts, doomed(insts), n);
    assert(insts.take(n as int) =~= insts);
    assert(k.take(k.len() as int) =~= k);
}

/// Cancels adjacent inverse gate pairs. See the [module docs](self).
#[derive(Debug, Clone, Copy, Default)]
pub struct GateCancellation;

impl GateCancellation {
    /// Stable identifier, used to enable or disable the pass.
    pub fn id(&self) -> (r: &'static str)
        ensures
            r@ == "gate-cancellation"@,
    {
        "gate-cancellation"
    }

    /// One-line description, shown in reports.
    pub fn description(&self) -> (r: &'static str)
        ensures
            r@ == "remove adjacent gate/inverse pairs (H;H, S;Sdg, Rz(θ);Rz(-θ), …)"@,
    {
        "remove adjacent gate/inverse pairs (H;H, S;Sdg, Rz(θ);Rz(-θ), …)"
    }

    /// Runs the pass: removes cancelling pairs round after round (removing
    /// one pair can expose another, as in `H; X; X; H`) until a round finds
    /// none. Every round removes at least two instructions, so this ends.
    pub fn run(&self, circuit: &Circuit) -> (r: Result<PassOutput, PassError>)
        requires
            qco_fits(circuit@.instructions, circuit@.num_qubits, circuit@.num_clbits),
        ensures
            r is Ok,
            r matches Ok(out) ==> {
                &&& out.changed == (cancel_pairs(circuit@.instructions) > 0)
                &&& out.changed ==> out.circuit@ == cancelled_circuit(circuit@) && out.notes@.len()
                    == 1 && out.notes@[0]@ == cancelled_note(cancel_pairs(circuit@.instructions))
                &&& !out.changed ==> out.circuit@ == circuit@ && out.notes@.len() == 0
            },
    {
        circuit.lemma_valid();
        let ghost insts = circuit@.instructions;
        let total = circuit.len();
        let mut current = circuit.clone();
        let mut cancelled: usize = 0;
        loop
            invariant
                current@.name == circuit@.name,
                current@.num_qubits == circuit@.num_qubits,
                current@.num_clbits == circuit@.num_clbits,
                qco_fits(current@.instructions, current@.num_qubits, current@.num_clbits),
                circuit_error(current@.instructions, current@.num_qubits, current@.num_clbits) is None,
                cancel_fix(current@.instructions) == cancel_fix(insts),
                cancelled + cancel_pairs(current@.instructions) == cancel_pairs(insts),
                insts == circuit@.instructions,
                total == insts.len(),
            ensures
                current@.name == circuit@.name,
                current@.num_qubits == circuit@.num_qubits,
                current@.num_clbits == circuit@.num_clbits,
                !has_cancellable(current@.instructions),
                cancel_fix(current@.instructions) == cancel_fix(insts),
                cancelled + cancel_pairs(current@.instructions) == cancel_pairs(insts),
            decreases current@.instructions.len(),
        {
            let ghost cur = current@.instructions;
            let doomed_flags = match find_cancellable(&current) {
                Ok(d) => d,
                Err(e) => {
                    return Err(PassError::from_ir(self.id(), e));
                },
            };
            let instrs = current.instructions();
            let mut kept: Vec<Instruction> = Vec::new();
            let mut any = false;
            let mut i: usize = 0;
            while i < instrs.len()
                invariant
                    i <= instrs@.len(),
                    insts_model(instrs@) == cur,
                    instrs@.len() == cur.len(),
                    doomed_flags@.len() == cur.len(),
                    forall|j: int| 0 <= j < cur.len() ==> #[trigger] doomed_flags@[j] == doomed(cur).contains(j as nat),
                    insts_model(kept@) == kept_upto(cur, doomed(cur), i as nat),
                    any == exists|j: int| 0 <= j < i && #[trigger] doomed(cur).contains(j as nat),
                decreases instrs@.len() - i,
            {
                if doomed_flags[i] {
                    any = true;
                } else {
                    let ghost before = insts_model(kept@);
                    kept.push(instrs[i].clone());
                    proof {
                        assert(insts_model(kept@) =~= before.push(instrs@[i as int]@));
                    }
                }
                i += 1;
            }
            if !any {
                proof {
                    assert(!has_cancellable(cur));
                }
                break;
            }
            proof {
                assert(has_cancellable(cur));
                lemma_round_ok(cur, current@.num_qubits, current@.num_clbits);
                let w = choose|j: int| 0 <= j < cur.len() && #[trigger] doomed(cur).contains(j as nat);
                lemma_kept_shorter(cur, doomed(cur), cur.len(), w as nat);
            }
            proof {
                lemma_pairs_bound(insts);
                assert(kept@.len() == cancel_round(cur).len());
                assert(cancel_pairs(cur) == ((cur.len() - cancel_round(cur).len()) / 2) as nat
                    + cancel_pairs(cancel_round(cur)));
            }
            let removed = instrs.len() - kept.len();
            cancelled += removed / 2;
            current = match rebuild(self.id(), &current, &kept) {
                Ok(c) => c,
                Err(e) => {
                    return Err(e);
                },
            };
        }
        proof {
            assert(cancel_fix(current@.instructions) == current@.instructions);
            assert(cancel_pairs(current@.instructions) == 0);
        }
        if cancelled == 0 {
            return Ok(PassOutput::unchanged(circuit.clone()));
        }
        let mut note = String::new();
        push_str(&mut note, "cancelled ");
        push_decimal(&mut note, cancelled as u64);
        push_str(&mut note, " inverse pair(s)");
        proof {
            assert(note@ =~= cancelled_note(cancelled as nat));
        }
        let mut notes: Vec<String> = Vec::new();
        notes.push(note);
        Ok(PassOutput { circuit: current, changed: true, notes })
    }
}

/// Marks, for one round, every member of every cancellable pair, chosen
/// greedily in ascending order so that overlapping candidates (as in
/// `X;X;X;X`) are matched consistently.
fn find_cancellable(circuit: &Circuit) -> (r: Result<Vec<bool>, IrError>)
    requires
        qco_fits(circuit@.instructions, circuit@.num_qubits, circuit@.num_clbits),
    ensures
        r matches Ok(d) && d@.len() == circuit@.instructions.len() && forall|i: int|
            0 <= i < d@.len() ==> #[trigger] d@[i] == doomed(circuit@.instructions).contains(i as nat),
{
    let ghost insts = circuit@.instructions;
    let successors = unanimous_successors(circuit)?;
    let n = circuit.len();
    let mut doomed_flags: Vec<bool> = Vec::new();
    let mut i: usize = 0;
    while i < n
        invariant
            i <= n,
            doomed_flags@.len() == i,
            forall|j: int| 0 <= j < i ==> !(#[trigger] doomed_flags@[j]),
        decreases n - i,
    {
        doomed_flags.push(false);
        i += 1;
    }
    proof {
        lemma_doomed_bounded(insts, 0);
    }
    let mut index: usize = 0;
    while index < n
        invariant
            index <= n,
            n == insts.len(),
            insts == circuit@.instructions,
            successors@.len() == n,
            forall|j: int| 0 <= j < n ==> opt_nat(#[trigger] successors@[j]) == unanimous_next(insts, j as nat),
            doomed_flags@.len() == n,
            forall|j: int| 0 <= j < n ==> #[trigger] doomed_flags@[j] == doomed_upto(insts, index as nat).contains(j as nat),
        decreases n - index,
    {
        proof {
            lemma_doomed_bounded(insts, index as nat + 1);
        }
        if doomed_flags[index] {
            index += 1;
            continue;
        }
        let partner = match successors[index] {
            Some(p) => p,
            None => {
                index += 1;
                continue;
            },
        };
        proof {
            assert(opt_nat(successors@[index as int]) == unanimous_next(insts, index as nat));
            lemma_unanimous_later(insts, index as nat);
        }
        if doomed_flags[partner] {
            index += 1;
            continue;
        }
        let (first, second) = match matched_pair(circuit, index, partner) {
            Some((a, b, _)) => (a, b),
            None => {
                index += 1;
                continue;
            },
        };
        if !are_inverse(first, second) {
            index += 1;
            continue;
        }
        doomed_flags.set(index, true);
        doomed_flags.set(partner, true);
        index += 1;
    }
    proof {
        assert(doomed(insts) == doomed_upto(insts, n as nat));
    }
    Ok(doomed_flags)
}

/// The unanimous successor comes later in the program.
pub proof fn lemma_unanimous_later(insts: Seq<InstructionModel>, i: nat)
    requires
        i < insts.len(),
    ensures
        unanimous_next(insts, i) matches Some(p) ==> i < p < insts.len(),
{
    if let InstructionModel::Gate { qubits, .. } = insts[i as int] {
        lemma_first_user(insts, i + 1, crate::ir::qco::Wire::Qubit(qubits[0]));
    }
}

/// Every marked index is an instruction of the program.
pub proof fn lemma_doomed_bounded(insts: Seq<InstructionModel>, i: nat)
    requires
        i <= insts.len(),
    ensures
        forall|j: nat| #[trigger] doomed_upto(insts, i).contains(j) ==> j < insts.len(),
    decreases i,
{
    if i > 0 {
        let k = (i - 1) as nat;
        let d = doomed_upto(insts, k);
        lemma_doomed_bounded(insts, k);
        lemma_unanimous_later(insts, k);
        assert forall|j: nat| #[trigger] doomed_upto(insts, i).contains(j) implies j < insts.len() by {
            if !d.contains(k) {
                if let Some(p) = unanimous_next(insts, k) {
                    if !d.contains(p) && cancels(insts, k, p) {
                        assert(doomed_upto(insts, i) == d.insert(k).insert(p));
                    }
                }
            }
        }
    }
}

/// Cancellation reaches a fixed point: its result has no cancellable pair
/// left, so running the pass on its own output changes nothing, and it
/// never lengthens a circuit.
pub proof fn lemma_cancel_fixpoint(insts: Seq<InstructionModel>)
    ensures
        !has_cancellable(cancel_fix(insts)),
        cancel_fix(cancel_fix(insts)) == cancel_fix(insts),
        cancel_pairs(cancel_fix(insts)) == 0,
        cancel_fix(insts).len() <= insts.len(),
    decreases insts.len(),
{
    if has_cancellable(insts) {
        let i = choose|i: int| 0 <= i < insts.len() && #[trigger] doomed(insts).contains(i as nat);
        lemma_kept_shorter(insts, doomed(insts), insts.len(), i as nat);
        lemma_cancel_fixpoint(cancel_round(insts));
    }
}

/// No run cancels more pairs than the circuit has instructions.
pub proof fn lemma_pairs_bound(insts: Seq<InstructionModel>)
    ensures
        cancel_pairs(insts) <= insts.len(),
    decreases insts.len(),
{
    if has_cancellable(insts) {
        let i = choose|i: int| 0 <= i < insts.len() && #[trigger] doomed(insts).contains(i as nat);
        lemma_kept_shorter(insts, doomed(insts), insts.len(), i as nat);
        lemma_pairs_bound(cancel_round(insts));
    }
}

/// Whether applying `a` then `b` is provably the identity.
fn are_inverse(a: &GateKind, b: &GateKind) -> (r: bool)
    ensures
        r == inverse_pair(a@, b@),
{
    match (a, b) {
        (GateKind::X, GateKind::X) => true,
        (GateKind::Y, GateKind::Y) => true,
        (GateKind::Z, GateKind::Z) => true,
        (GateKind::H, GateKind::H) => true,
        (GateKind::Cx, GateKind::Cx) => true,
        (GateKind::Cy, GateKind::Cy) => true,
        (GateKind::Cz, GateKind::Cz) => true,
        (GateKind::Swap, GateKind::Swap) => true,
        (GateKind::Ccx, GateKind::Ccx) => true,
        (GateKind::S, GateKind::Sdg) => true,
        (GateKind::Sdg, GateKind::S) => true,
        (GateKind::T, GateKind::Tdg) => true,
        (GateKind::Tdg, GateKind::T) => true,
        (GateKind::Rx(p), GateKind::Rx(q)) => negate_exactly(p, q),
        (GateKind::Ry(p), GateKind::Ry(q)) => negate_exactly(p, q),
        (GateKind::Rz(p), GateKind::Rz(q)) => negate_exactly(p, q),
        (GateKind::P(p), GateKind::P(q)) => negate_exactly(p, q),
        _ => false,
    }
}

/// Whether both parameters are concrete and `a == -b` exactly.
fn negate_exactly(a: &Param, b: &Param) -> (r: bool)
    ensures
        r == params_negate(a@, b@),
{
    match (a.as_concrete(), b.as_concrete()) {
        (Some(x), Some(y)) => x.negates(y),
        _ => false,
    }
}


/// The phase a diagonal Clifford+T gate applies to `|1⟩`, in eighths of a
/// turn: `T` is one eighth, `S` two, `Z` four, `S†` six, `T†` seven.
pub open spec fn z_eighths(g: GateModel) -> Option<int> {
    match g {
        GateModel::T => Some(1),
        GateModel::S => Some(2),
        GateModel::Z => Some(4),
        GateModel::Sdg => Some(6),
        GateModel::Tdg => Some(7),
        _ => None,
    }
}

/// Cancelled pairs multiply to the identity: a gate without parameters has
/// at most one inverse partner; two diagonal Clifford+T gates cancel only
/// when their phases add up to a whole turn; and a rotation cancels only
/// against a rotation about the same axis.
pub proof fn lemma_inverse_pairs_undo_each_other(a: GateModel, b: GateModel, c: GateModel)
    requires
        inverse_pair(a, b),
    ensures
        gate_params(a).len() == 0 && inverse_pair(a, c) ==> b == c,
        z_eighths(a) is Some ==> z_eighths(b) is Some && (z_eighths(a)->0 + z_eighths(b)->0) % 8 == 0,
        gate_mnemonic(a) != gate_mnemonic(b) ==> z_eighths(a) is Some,
{
}


/// Two diagonal Clifford+T gates whose phases add up to a whole turn do
/// cancel.
pub proof fn lemma_diagonal_inverses_cancel(a: GateModel, b: GateModel)
    requires
        z_eighths(a) is Some,
        z_eighths(b) is Some,
        (z_eighths(a)->0 + z_eighths(b)->0) % 8 == 0,
    ensures
        inverse_pair(a, b),
{
}

/// A rotation cancels only against a rotation by the opposite angle: both
/// angles are concrete, of equal magnitude, and either of opposite sign or
/// both zero.
pub proof fn lemma_rotation_inverse_negates(a: GateModel, b: GateModel)
    requires
        inverse_pair(a, b),
        gate_params(a).len() == 1,
    ensures
        gate_params(b).len() == 1,
        gate_params(a)[0] matches ParamModel::Concrete(x) && gate_params(b)[0] matches ParamModel::Concrete(y)
            && x & MAGNITUDE_MASK == y & MAGNITUDE_MASK && (x != y || x & MAGNITUDE_MASK == 0),
{
    let x = gate_params(a)[0]->Concrete_0;
    let y = gate_params(b)[0]->Concrete_0;
    assert(x & MAGNITUDE_MASK == y & MAGNITUDE_MASK && (x != y || x & MAGNITUDE_MASK == 0)) by (bit_vector)
        requires
            x == y ^ 0x8000_0000_0000_0000u64 || (x & 0x7fff_ffff_ffff_ffffu64 == 0 && (y ^ 0x8000_0000_0000_0000u64)
                & 0x7fff_ffff_ffff_ffffu64 == 0),
    ;
}

} // verus!
