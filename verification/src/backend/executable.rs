//! The operations of an executable artifact: what a backend adapter runs.
//!
//! Preparing a lowered circuit for execution refuses what no adapter could
//! run faithfully: an opaque gate has no known implementation, and a
//! symbolic parameter has no value. Everything else becomes a plain list of
//! named operations on qubit indices with concrete angles.
use vstd::prelude::*;

use crate::analysis::report::inst_name;
use crate::backend::result::{ExecutionSettings, Provenance};
use crate::backend::BackendError;
use crate::ir::qc::{inst_qubits, insts_model, Circuit, Instruction, InstructionModel};
use crate::ir::types::{gate_params, Angle, GateKind, GateModel, Param, ParamModel};
use crate::text::{lemma_text_lt_order, push_str, text_before, text_lt};

verus! {

/// One operation of an executable artifact.
#[derive(Debug, Clone, PartialEq)]
pub struct ExecutableOp {
    /// Operation name: a gate mnemonic, `measure` or `reset`.
    pub op: String,
    /// Physical qubit indices, in operand order.
    pub qubits: Vec<u32>,
    /// Concrete angles, in parameter order.
    pub params: Vec<Angle>,
    /// The classical bit a measurement writes.
    pub clbit: Option<u32>,
}

/// The first symbolic parameter of a list, by name.
pub open spec fn first_symbol(ps: Seq<ParamModel>) -> Option<Seq<char>>
    decreases ps.len(),
{
    if ps.len() == 0 {
        None
    } else {
        match first_symbol(ps.drop_last()) {
            Some(s) => Some(s),
            None => match ps.last() {
                ParamModel::Symbol(s) => Some(s),
                _ => None,
            },
        }
    }
}

/// Why an instruction cannot be executed, if it cannot.
pub open spec fn executable_error(inst: InstructionModel) -> Option<Seq<char>> {
    match inst {
        InstructionModel::Gate { kind, .. } => match kind {
            GateModel::Opaque { name, .. } => Some(
                "opaque operation `"@ + name + "` has no known implementation"@,
            ),
            _ => match first_symbol(gate_params(kind)) {
                Some(s) => Some(
                    "parameter `"@ + s
                        + "` is still symbolic; bind parameters before preparing for execution"@,
                ),
                None => None,
            },
        },
        _ => None,
    }
}

/// The first instruction among the first `k` that cannot be executed, with
/// the reason.
pub open spec fn first_executable_error(insts: Seq<InstructionModel>, k: nat) -> Option<(nat, Seq<char>)>
    decreases k,
{
    if k == 0 {
        None
    } else {
        match first_executable_error(insts, (k - 1) as nat) {
            Some(e) => Some(e),
            None => match executable_error(insts[k - 1]) {
                Some(d) => Some(((k - 1) as nat, d)),
                None => None,
            },
        }
    }
}

/// The angle patterns of a list of concrete parameters.
pub open spec fn param_bits(ps: Seq<ParamModel>) -> Seq<u64> {
    ps.map_values(|p: ParamModel| p->Concrete_0)
}

/// Whether `op` is the executable form of `inst`.
pub open spec fn executes(op: ExecutableOp, inst: InstructionModel) -> bool {
    &&& op.op@ == inst_name(inst)
    &&& op.qubits@ == inst_qubits(inst).map_values(|q: crate::ir::types::QubitId| q.0)
    &&& op.params@.map_values(|a: Angle| a.spec_bits()) == match inst {
        InstructionModel::Gate { kind, .. } => param_bits(gate_params(kind)),
        _ => Seq::empty(),
    }
    &&& op.clbit == match inst {
        InstructionModel::Measure { target, .. } => Some(target.0),
        _ => None,
    }
}

fn qubit_indices(qubits: &Vec<crate::ir::types::QubitId>) -> (r: Vec<u32>)
    ensures
        r@ == qubits@.map_values(|q: crate::ir::types::QubitId| q.0),
{
    let mut out: Vec<u32> = Vec::new();
    let mut i: usize = 0;
    while i < qubits.len()
        invariant
            i <= qubits@.len(),
            out@ == qubits@.take(i as int).map_values(|q: crate::ir::types::QubitId| q.0),
        decreases qubits@.len() - i,
    {
        out.push(qubits[i].0);
        proof {
            assert(qubits@.take(i as int + 1).map_values(|q: crate::ir::types::QubitId| q.0)
                =~= qubits@.take(i as int).map_values(|q: crate::ir::types::QubitId| q.0).push(qubits@[i as int].0));
        }
        i += 1;
    }
    proof {
        assert(qubits@.take(qubits@.len() as int) =~= qubits@);
    }
    out
}

/// The concrete angles of a gate's parameters, or the name of the first
/// symbolic one.
fn concrete_params(params: &Vec<Param>) -> (r: Result<Vec<Angle>, String>)
    ensures
        match first_symbol(params@.map_values(|p: Param| p@)) {
            Some(s) => r matches Err(name) && name@ == s,
            None => r matches Ok(angles) && angles@.map_values(|a: Angle| a.spec_bits()) == param_bits(
                params@.map_values(|p: Param| p@),
            ),
        },
{
    let ghost ps = params@.map_values(|p: Param| p@);
    let mut out: Vec<Angle> = Vec::new();
    let mut i: usize = 0;
    while i < params.len()
        invariant
            i <= params@.len(),
            ps == params@.map_values(|p: Param| p@),
            first_symbol(ps.take(i as int)) is None,
            out@.map_values(|a: Angle| a.spec_bits()) == param_bits(ps.take(i as int)),
        decreases params@.len() - i,
    {
        proof {
            assert(ps.take(i as int + 1).drop_last() =~= ps.take(i as int));
            assert(ps.take(i as int + 1).last() == params@[i as int]@);
        }
        match &params[i] {
            Param::Concrete(a) => {
                let ghost before = out@;
                out.push(*a);
                proof {
                    assert(ps.take(i as int + 1) =~= ps.take(i as int).push(ps[i as int]));
                    assert(out@ =~= before.push(*a));
                    assert(out@.map_values(|a: Angle| a.spec_bits()) =~= before.map_values(
                        |a: Angle| a.spec_bits(),
                    ).push(a.spec_bits()));
                    assert(param_bits(ps.take(i as int + 1)) =~= param_bits(ps.take(i as int)).push(
                        a.spec_bits(),
                    ));
                }
            },
            Param::Symbol(s) => {
                proof {
                    lemma_first_symbol_stays(ps, i as nat + 1);
                    assert(ps.take(params@.len() as int) =~= ps);
                }
                return Err(s.clone());
            },
        }
        i += 1;
    }
    proof {
        assert(ps.take(params@.len() as int) =~= ps);
    }
    Ok(out)
}

/// Once a symbol is found in a prefix, it stays the first one.
proof fn lemma_first_symbol_stays(ps: Seq<ParamModel>, k: nat)
    requires
        k <= ps.len(),
        first_symbol(ps.take(k as int)) is Some,
    ensures
        first_symbol(ps) == first_symbol(ps.take(k as int)),
    decreases ps.len() - k,
{
    if k < ps.len() {
        assert(ps.take(k as int + 1).drop_last() =~= ps.take(k as int));
        lemma_first_symbol_stays(ps, k + 1);
    } else {
        assert(ps.take(k as int) =~= ps);
    }
}

/// Once an instruction fails, it stays the first failure.
proof fn lemma_first_error_stays(insts: Seq<InstructionModel>, i: nat, k: nat)
    requires
        i <= k,
        first_executable_error(insts, i) is Some,
    ensures
        first_executable_error(insts, k) == first_executable_error(insts, i),
    decreases k - i,
{
    if i < k {
        lemma_first_error_stays(insts, i, (k - 1) as nat);
    }
}

/// The executable operations of a circuit, one per instruction.
///
/// # Errors
///
/// [`BackendError::NotExecutable`] for the first instruction that is an
/// opaque gate, or a gate with a symbolic parameter.
fn executable_ops(circuit: &Circuit) -> (r: Result<Vec<ExecutableOp>, BackendError>)
    ensures
        match first_executable_error(circuit@.instructions, circuit@.instructions.len()) {
            Some((i, detail)) => r matches Err(BackendError::NotExecutable { index, detail: d }) && index
                == i && d@ == detail,
            None => r matches Ok(ops) && ops@.len() == circuit@.instructions.len() && forall|k: int|
                0 <= k < ops@.len() ==> executes(#[trigger] ops@[k], circuit@.instructions[k]),
        },
{
    let instrs = circuit.instructions();
    let ghost insts = circuit@.instructions;
    let mut ops: Vec<ExecutableOp> = Vec::new();
    let mut index: usize = 0;
    while index < instrs.len()
        invariant
            index <= instrs@.len(),
            insts_model(instrs@) == insts,
            instrs@.len() == insts.len(),
            insts == circuit@.instructions,
            first_executable_error(insts, index as nat) is None,
            ops@.len() == index,
            forall|k: int| 0 <= k < index ==> executes(#[trigger] ops@[k], insts[k]),
        decreases instrs@.len() - index,
    {
        proof {
            assert(instrs@[index as int]@ == insts[index as int]);
            if executable_error(insts[index as int]) is Some {
                lemma_first_error_stays(insts, index as nat + 1, insts.len());
            }
        }
        let op = match &instrs[index] {
            Instruction::Gate { kind, qubits } => {
                if let GateKind::Opaque { name, .. } = kind {
                    let mut detail = String::new();
                    push_str(&mut detail, "opaque operation `");
                    push_str(&mut detail, name.as_str());
                    push_str(&mut detail, "` has no known implementation");
                    return Err(BackendError::NotExecutable { index, detail });
                }
                let params = kind.params();
                let angles = match concrete_params(&params) {
                    Ok(a) => a,
                    Err(symbol) => {
                        let mut detail = String::new();
                        push_str(&mut detail, "parameter `");
                        push_str(&mut detail, symbol.as_str());
                        push_str(
                            &mut detail,
                            "` is still symbolic; bind parameters before preparing for execution",
                        );
                        return Err(BackendError::NotExecutable { index, detail });
                    },
                };
                ExecutableOp { op: kind.mnemonic(), qubits: qubit_indices(qubits), params: angles, clbit: None }
            },
            Instruction::Measure { qubit, target } => ExecutableOp {
                op: "measure".to_string(),
                qubits: vec![qubit.0],
                params: Vec::new(),
                clbit: Some(target.0),
            },
            Instruction::Reset { qubit } => ExecutableOp {
                op: "reset".to_string(),
                qubits: vec![qubit.0],
                params: Vec::new(),
                clbit: None,
            },
        };
        proof {
            assert(executes(op, insts[index as int])) by {
                if let InstructionModel::Measure { qubit, .. } = insts[index as int] {
                    assert(op.qubits@ =~= inst_qubits(insts[index as int]).map_values(
                        |q: crate::ir::types::QubitId| q.0,
                    ));
                    assert(op.params@.map_values(|a: Angle| a.spec_bits()) =~= Seq::<u64>::empty());
                }
                if let InstructionModel::Reset { qubit } = insts[index as int] {
                    assert(op.qubits@ =~= inst_qubits(insts[index as int]).map_values(
                        |q: crate::ir::types::QubitId| q.0,
                    ));
                    assert(op.params@.map_values(|a: Angle| a.spec_bits()) =~= Seq::<u64>::empty());
                }
            }
        }
        ops.push(op);
        index += 1;
    }
    Ok(ops)
}

/// Whether any operation is a measurement.
fn any_measurement(ops: &Vec<ExecutableOp>) -> (r: bool)
    ensures
        r == exists|k: int| 0 <= k < ops@.len() && (#[trigger] ops@[k]).op@ == "measure"@,
{
    let mut k: usize = 0;
    while k < ops.len()
        invariant
            k <= ops@.len(),
            forall|j: int| 0 <= j < k ==> (#[trigger] ops@[j]).op@ != "measure"@,
        decreases ops@.len() - k,
    {
        if crate::text::is_text(&ops[k].op, "measure") {
            return true;
        }
        k += 1;
    }
    false
}

/// Whether some operation of `ops` is named `name`.
pub open spec fn names_an_op(name: Seq<char>, ops: Seq<ExecutableOp>) -> bool {
    exists|k: int| 0 <= k < ops.len() && name == (#[trigger] ops[k]).op@
}

/// Whether `name` is among `names`.
pub open spec fn listed(names: Seq<String>, name: Seq<char>) -> bool {
    exists|i: int| 0 <= i < names.len() && (#[trigger] names[i])@ == name
}

/// The distinct operation names, in ascending text order.
fn operation_names(ops: &Vec<ExecutableOp>) -> (r: Vec<String>)
    ensures
        forall|i: int, j: int| 0 <= i < j < r@.len() ==> text_lt((#[trigger] r@[i])@, (#[trigger] r@[j])@),
        forall|i: int| 0 <= i < r@.len() ==> names_an_op((#[trigger] r@[i])@, ops@),
        forall|k: int| 0 <= k < ops@.len() ==> listed(r@, (#[trigger] ops@[k]).op@),
{
    let mut names: Vec<String> = Vec::new();
    let mut k: usize = 0;
    while k < ops.len()
        invariant
            k <= ops@.len(),
            forall|i: int, j: int| 0 <= i < j < names@.len() ==> text_lt((#[trigger] names@[i])@, (#[trigger] names@[j])@),
            forall|i: int| 0 <= i < names@.len() ==> names_an_op((#[trigger] names@[i])@, ops@),
            forall|m: int| 0 <= m < k ==> listed(names@, (#[trigger] ops@[m]).op@),
        decreases ops@.len() - k,
    {
        let name = ops[k].op.as_str();
        let mut j: usize = 0;
        let mut present = false;
        while j < names.len()
            invariant_except_break
                !present,
            invariant
                j <= names@.len(),
                k < ops@.len(),
                name@ == ops@[k as int].op@,
                forall|i: int| 0 <= i < j ==> text_lt((#[trigger] names@[i])@, name@),
            ensures
                j <= names@.len(),
                forall|i: int| 0 <= i < j ==> text_lt((#[trigger] names@[i])@, name@),
                present ==> j < names@.len() && names@[j as int]@ == name@,
                !present ==> j == names@.len() || text_lt(name@, names@[j as int]@),
            decreases names@.len() - j,
        {
            let here = names[j].as_str();
            if crate::text::is_text(&names[j], name) {
                present = true;
                proof {
                    assert(names@[j as int]@ == ops@[k as int].op@);
                }
                break;
            }
            if text_before(name, here) {
                break;
            }
            proof {
                lemma_text_lt_order(here@, name@, name@);
            }
            j += 1;
        }
        let ghost before = names@;
        if !present {
            names.insert(j, name.to_string());
            proof {
                assert forall|a: int, b: int| 0 <= a < b < names@.len() implies text_lt((#[trigger] names@[a])@, (#[trigger] names@[b])@) by {
                    if b < j {
                        assert(names@[a] == before[a] && names@[b] == before[b]);
                    } else if b == j {
                        assert(names@[a] == before[a]);
                    } else if a == j {
                        assert(names@[b] == before[b - 1]);
                        if b - 1 > j {
                            lemma_text_lt_order(name@, before[j as int]@, before[b - 1]@);
                        }
                    } else if a < j {
                        assert(names@[a] == before[a] && names@[b] == before[b - 1]);
                    } else {
                        assert(names@[a] == before[a - 1] && names@[b] == before[b - 1]);
                    }
                }
                assert forall|i: int| 0 <= i < names@.len() implies names_an_op((#[trigger] names@[i])@, ops@) by {
                    if i < j {
                        assert(names@[i] == before[i]);
                    } else if i == j {
                        assert(names@[i]@ == ops@[k as int].op@);
                    } else {
                        assert(names@[i] == before[i - 1]);
                    }
                }
                assert forall|m: int| 0 <= m < k + 1 implies listed(names@, (#[trigger] ops@[m]).op@) by {
                    if m == k {
                        assert(names@[j as int]@ == ops@[m].op@);
                    } else {
                        assert(listed(before, ops@[m].op@));
                        let i = choose|i: int| 0 <= i < before.len() && (#[trigger] before[i])@ == ops@[m].op@;
                        if i < j {
                            assert(names@[i] == before[i]);
                        } else {
                            assert(names@[i + 1] == before[i]);
                        }
                    }
                }
            }
        }
        k += 1;
    }
    names
}

/// A circuit prepared for one backend: its operations, the settings of the
/// run, and the provenance that makes a result citable.
#[derive(Debug, Clone, PartialEq)]
pub struct Executable {
    /// The backend this was prepared for; an executable is not portable.
    pub backend_id: String,
    /// Physical qubits the circuit uses.
    pub num_qubits: u32,
    /// Classical bits it writes.
    pub num_clbits: u32,
    /// The operations, in program order.
    pub ops: Vec<ExecutableOp>,
    /// Shots, seed and per-shot memory.
    pub settings: ExecutionSettings,
    /// Everything needed to cite a result produced from this.
    pub provenance: Provenance,
}

impl Executable {
    /// Prepares a lowered circuit (over physical qubits) for `backend_id`.
    ///
    /// # Errors
    ///
    /// [`BackendError::NotExecutable`] for the first instruction that is an
    /// opaque gate or has a symbolic parameter: an opaque gate has no known
    /// implementation, and a symbol has no value any execution accepts.
    pub fn from_lowered(
        circuit: &Circuit,
        backend_id: &str,
        settings: ExecutionSettings,
        provenance: Provenance,
    ) -> (r: Result<Executable, BackendError>)
        ensures
            match first_executable_error(circuit@.instructions, circuit@.instructions.len()) {
                Some((i, detail)) => r matches Err(BackendError::NotExecutable { index, detail: d })
                    && index == i && d@ == detail,
                None => r matches Ok(e) && {
                    &&& e.backend_id@ == backend_id@
                    &&& e.num_qubits == circuit@.num_qubits
                    &&& e.num_clbits == circuit@.num_clbits
                    &&& e.ops@.len() == circuit@.instructions.len()
                    &&& forall|k: int|
                        0 <= k < e.ops@.len() ==> executes(#[trigger] e.ops@[k], circuit@.instructions[k])
                    &&& e.settings == settings
                    &&& e.provenance == provenance
                },
            },
    {
        let ops = match executable_ops(circuit) {
            Ok(ops) => ops,
            Err(e) => return Err(e),
        };
        Ok(Executable {
            backend_id: backend_id.to_string(),
            num_qubits: circuit.num_qubits(),
            num_clbits: circuit.num_clbits(),
            ops,
            settings,
            provenance,
        })
    }

    /// Whether this circuit measures anything: one that does not produces
    /// no counts, which is worth knowing before a backend runs it.
    pub fn has_measurement(&self) -> (r: bool)
        ensures
            r == exists|k: int| 0 <= k < self.ops@.len() && (#[trigger] self.ops@[k]).op@ == "measure"@,
    {
        any_measurement(&self.ops)
    }

    /// The distinct operations this executable uses, in ascending text
    /// order, so an adapter can check it implements all of them before it
    /// runs anything.
    pub fn operations(&self) -> (r: Vec<String>)
        ensures
            forall|i: int, j: int| 0 <= i < j < r@.len() ==> text_lt((#[trigger] r@[i])@, (#[trigger] r@[j])@),
            forall|i: int| 0 <= i < r@.len() ==> names_an_op((#[trigger] r@[i])@, self.ops@),
            forall|k: int| 0 <= k < self.ops@.len() ==> listed(r@, (#[trigger] self.ops@[k]).op@),
    {
        operation_names(&self.ops)
    }
}

} // verus!
