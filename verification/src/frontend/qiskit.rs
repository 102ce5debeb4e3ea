//! The Qiskit adapter's decisions, with none of the Python: a
//! `QuantumCircuit` reduced to plain facts (register widths and an ordered
//! instruction list over flat bit indices) and its translation into QC-IR.
//!
//! Dynamic-circuit operations are refused, `barrier` and `delay` are
//! dropped (QC-IR has no counterpart), a measurement pairs its qubits with
//! its bits one to one, and a compound parameter expression is refused
//! rather than approximated.
use vstd::prelude::*;

use crate::frontend::error::FrontendError;
use crate::frontend::gate_map::{map_gate, map_gate_spec, nullary_gate, param_count, param_gate};
use crate::ir::qc::{circuit_error, CircuitBuilder, CircuitModel, Circuit, InstructionModel};
use crate::ir::types::{Angle, ClbitId, GateModel, Param, ParamModel, QubitId};
use crate::text::{ascii_lowered, decimal, is_text, push_decimal, push_str, to_ascii_lowercase};

verus! {

/// A Qiskit instruction parameter.
#[derive(Debug, Clone, PartialEq)]
pub enum QiskitParam {
    /// A bound numeric value.
    Concrete(Angle),
    /// An unbound `Parameter`, carried through as a symbol.
    Symbol(String),
    /// A `ParameterExpression` that is not a bare parameter, as text.
    Expression(String),
}

/// One entry of `QuantumCircuit.data`.
#[derive(Debug, Clone, PartialEq)]
pub struct QiskitInstruction {
    /// The operation's name.
    pub name: String,
    /// The operation's parameters, in order.
    pub params: Vec<QiskitParam>,
    /// Flat indices of the qubits, in operand order.
    pub qubits: Vec<u32>,
    /// Flat indices of the classical bits, in operand order.
    pub clbits: Vec<u32>,
}

impl QiskitInstruction {
    /// A gate on the given qubits, with no classical bits.
    pub fn gate(name: &str, params: Vec<QiskitParam>, qubits: Vec<u32>) -> (r: QiskitInstruction)
        ensures
            r.name@ == name@,
            r.params@ == params@,
            r.qubits@ == qubits@,
            r.clbits@.len() == 0,
    {
        QiskitInstruction { name: name.to_string(), params, qubits, clbits: Vec::new() }
    }
}

/// A Qiskit `QuantumCircuit` reduced to what QC-IR needs.
#[derive(Debug, Clone, PartialEq)]
pub struct QiskitCircuitIr {
    /// Circuit name.
    pub name: String,
    /// Total qubit count.
    pub num_qubits: u32,
    /// Total classical bit count.
    pub num_clbits: u32,
    /// The instructions, in program order.
    pub instructions: Vec<QiskitInstruction>,
}

/// Why a Qiskit instruction cannot be translated.
pub enum QiskitRefusal {
    /// A dynamic-circuit operation, by its name as written.
    ControlFlow(Seq<char>),
    /// A measurement with these many qubits and these many bits.
    MeasurePairs(nat, nat),
    /// A compound parameter expression, and the operation it is on.
    Expression(Seq<char>, Seq<char>),
    /// A registered gate given the wrong number of angles: the lowered
    /// name, the number expected, the number found.
    Arity(Seq<char>, nat, nat),
}

/// Whether a lowered operation name is a dynamic-circuit operation.
pub open spec fn is_control_flow(n: Seq<char>) -> bool {
    n == "if_else"@ || n == "while_loop"@ || n == "for_loop"@ || n == "switch_case"@ || n
        == "break_loop"@ || n == "continue_loop"@
}

/// The first compound expression among the parameters.
pub open spec fn first_expression(ps: Seq<QiskitParam>) -> Option<Seq<char>>
    decreases ps.len(),
{
    if ps.len() == 0 {
        None
    } else {
        match first_expression(ps.drop_last()) {
            Some(t) => Some(t),
            None => match ps.last() {
                QiskitParam::Expression(t) => Some(t@),
                _ => None,
            },
        }
    }
}

/// A parameter as QC-IR holds it (an expression has no such form).
pub open spec fn param_of(p: QiskitParam) -> ParamModel {
    match p {
        QiskitParam::Concrete(a) => ParamModel::Concrete(a.spec_bits()),
        QiskitParam::Symbol(s) => ParamModel::Symbol(s@),
        QiskitParam::Expression(t) => ParamModel::Symbol(t@),
    }
}

/// What mapping a name and parameters gives: a registered or opaque gate, or a
/// parameter-arity refusal. The deterministic reading of `map_gate_spec`.
pub open spec fn gate_mapping(name: Seq<char>, ps: Seq<ParamModel>) -> Result<GateModel, QiskitRefusal> {
    let n = ascii_lowered(name);
    match nullary_gate(n) {
        Some(g) => if ps.len() == 0 {
            Ok(g)
        } else {
            Err(QiskitRefusal::Arity(n, 0, ps.len()))
        },
        None => match param_count(n) {
            Some(c) => if ps.len() == c {
                Ok(param_gate(n, ps))
            } else {
                Err(QiskitRefusal::Arity(n, c, ps.len()))
            },
            None => Ok(GateModel::Opaque { name: name, params: ps }),
        },
    }
}

/// The QC-IR instructions one Qiskit instruction becomes, or why it cannot.
pub open spec fn inst_outcome(inst: QiskitInstruction) -> Result<Seq<InstructionModel>, QiskitRefusal> {
    let n = ascii_lowered(inst.name@);
    let qs = inst.qubits@;
    let cs = inst.clbits@;
    if is_control_flow(n) {
        Err(QiskitRefusal::ControlFlow(inst.name@))
    } else if n == "barrier"@ || n == "delay"@ {
        Ok(Seq::empty())
    } else if n == "measure"@ {
        if qs.len() != cs.len() {
            Err(QiskitRefusal::MeasurePairs(qs.len(), cs.len()))
        } else {
            Ok(
                Seq::new(
                    qs.len(),
                    |i: int| InstructionModel::Measure { qubit: QubitId(qs[i]), target: ClbitId(cs[i]) },
                ),
            )
        }
    } else if n == "reset"@ {
        Ok(Seq::new(qs.len(), |i: int| InstructionModel::Reset { qubit: QubitId(qs[i]) }))
    } else {
        match first_expression(inst.params@) {
            Some(t) => Err(QiskitRefusal::Expression(t, inst.name@)),
            None => match gate_mapping(n, inst.params@.map_values(|p: QiskitParam| param_of(p))) {
                Ok(g) => Ok(
                    seq![InstructionModel::Gate { kind: g, qubits: qs.map_values(|q: u32| QubitId(q)) }],
                ),
                Err(e) => Err(e),
            },
        }
    }
}

/// The instructions the first `k` Qiskit instructions become, or the first
/// refusal.
pub open spec fn translation(insts: Seq<QiskitInstruction>, k: nat) -> Result<Seq<InstructionModel>, QiskitRefusal>
    decreases k,
{
    if k == 0 {
        Ok(Seq::empty())
    } else {
        match translation(insts, (k - 1) as nat) {
            Err(e) => Err(e),
            Ok(body) => match inst_outcome(insts[k - 1]) {
                Err(e) => Err(e),
                Ok(more) => Ok(body + more),
            },
        }
    }
}

/// Whether `e` reports refusal `f`.
pub open spec fn reports(e: FrontendError, f: QiskitRefusal) -> bool {
    match f {
        QiskitRefusal::ControlFlow(name) => e matches FrontendError::Unsupported(m) && m@
            == "Qiskit control-flow operation `"@ + name + "`; OQCI supports static circuits only"@,
        QiskitRefusal::MeasurePairs(q, c) => e matches FrontendError::Semantic(m) && m@
            == "measurement pairs "@ + decimal(q) + " qubit(s) with "@ + decimal(c)
            + " classical bit(s)"@,
        QiskitRefusal::Expression(text, gate) => e matches FrontendError::Unsupported(m) && m@
            == "compound parameter expression `"@ + text + "` on gate `"@ + gate
            + "`; only a bare unbound Parameter is representable in QC-IR"@,
        QiskitRefusal::Arity(gate, expected, found) => e matches FrontendError::ParamArity {
            gate: g,
            expected: x,
            found: y,
        } && g@ == gate && x == expected && y == found,
    }
}

/// The name a translated circuit gets: its own, or `main` if it has none.
pub open spec fn circuit_name(name: Seq<char>) -> Seq<char> {
    if name.len() == 0 {
        "main"@
    } else {
        name
    }
}

/// `map_gate`'s relation, read as the function `gate_mapping`.
proof fn lemma_map_gate_outcome(name: Seq<char>, ps: Seq<ParamModel>, r: Result<crate::ir::types::GateKind, FrontendError>)
    requires
        map_gate_spec(name, ps, r),
    ensures
        match gate_mapping(name, ps) {
            Ok(g) => r is Ok && r->Ok_0@ == g,
            Err(f) => r is Err && reports(r->Err_0, f),
        },
{
}

/// The QC-IR parameters of a Qiskit parameter list, or the text of its first
/// compound expression.
fn convert_params(params: &Vec<QiskitParam>) -> (r: Result<Vec<Param>, String>)
    ensures
        match first_expression(params@) {
            Some(t) => r matches Err(text) && text@ == t,
            None => r matches Ok(ps) && ps@.map_values(|p: Param| p@) == params@.map_values(
                |p: QiskitParam| param_of(p),
            ),
        },
{
    let mut out: Vec<Param> = Vec::new();
    let mut i: usize = 0;
    while i < params.len()
        invariant
            i <= params@.len(),
            first_expression(params@.take(i as int)) is None,
            out@.len() == i,
            out@.map_values(|p: Param| p@) == params@.take(i as int).map_values(|p: QiskitParam| param_of(p)),
        decreases params@.len() - i,
    {
        proof {
            assert(params@.take(i as int + 1).drop_last() =~= params@.take(i as int));
            assert(params@.take(i as int + 1).last() == params@[i as int]);
        }
        let ghost before = out@;
        let p = match &params[i] {
            QiskitParam::Concrete(a) => Param::concrete(*a),
            QiskitParam::Symbol(s) => Param::symbol(s.as_str()),
            QiskitParam::Expression(t) => {
                proof {
                    lemma_first_expression_stays(params@, i as nat + 1);
                }
                return Err(t.clone());
            },
        };
        proof {
            assert(p@ == param_of(params@[i as int]));
        }
        out.push(p);
        proof {
            assert(out@ =~= before.push(p));
            assert(out@.map_values(|p: Param| p@) =~= before.map_values(|p: Param| p@).push(
                param_of(params@[i as int]),
            ));
            assert(params@.take(i as int + 1).map_values(|p: QiskitParam| param_of(p))
                =~= params@.take(i as int).map_values(|p: QiskitParam| param_of(p)).push(
                param_of(params@[i as int]),
            ));
        }
        i += 1;
    }
    proof {
        assert(params@.take(params@.len() as int) =~= params@);
    }
    Ok(out)
}

/// Once an expression is found in a prefix, it stays the first one.
proof fn lemma_first_expression_stays(ps: Seq<QiskitParam>, k: nat)
    requires
        k <= ps.len(),
        first_expression(ps.take(k as int)) is Some,
    ensures
        first_expression(ps) == first_expression(ps.take(k as int)),
    decreases ps.len() - k,
{
    if k < ps.len() {
        assert(ps.take(k as int + 1).drop_last() =~= ps.take(k as int));
        lemma_first_expression_stays(ps, k + 1);
    } else {
        assert(ps.take(k as int) =~= ps);
    }
}

/// Once an instruction is refused, the refusal stands.
proof fn lemma_refusal_stays(insts: Seq<QiskitInstruction>, i: nat, k: nat)
    requires
        i <= k,
        translation(insts, i) is Err,
    ensures
        translation(insts, k) == translation(insts, i),
    decreases k - i,
{
    if i < k {
        lemma_refusal_stays(insts, i, (k - 1) as nat);
    }
}

fn is_control_flow_name(n: &String) -> (r: bool)
    ensures
        r == is_control_flow(n@),
{
    is_text(n, "if_else") || is_text(n, "while_loop") || is_text(n, "for_loop") || is_text(
        n,
        "switch_case",
    ) || is_text(n, "break_loop") || is_text(n, "continue_loop")
}

fn qubit_ids(qubits: &Vec<u32>) -> (r: Vec<QubitId>)
    ensures
        r@ == qubits@.map_values(|q: u32| QubitId(q)),
{
    let mut out: Vec<QubitId> = Vec::new();
    let mut i: usize = 0;
    while i < qubits.len()
        invariant
            i <= qubits@.len(),
            out@ == qubits@.take(i as int).map_values(|q: u32| QubitId(q)),
        decreases qubits@.len() - i,
    {
        out.push(QubitId(qubits[i]));
        proof {
            assert(qubits@.take(i as int + 1).map_values(|q: u32| QubitId(q)) =~= qubits@.take(
                i as int,
            ).map_values(|q: u32| QubitId(q)).push(QubitId(qubits@[i as int])));
        }
        i += 1;
    }
    proof {
        assert(qubits@.take(qubits@.len() as int) =~= qubits@);
    }
    out
}

/// Translates a reduced Qiskit circuit into a validated [`Circuit`], in
/// instruction order.
///
/// # Errors
///
/// The first instruction that cannot be translated is reported:
/// [`FrontendError::Unsupported`] for a control-flow operation or a
/// compound parameter expression, [`FrontendError::Semantic`] for a
/// measurement whose qubits and bits do not pair up, and
/// [`FrontendError::ParamArity`] for a registered gate with the wrong
/// number of angles. Otherwise [`FrontendError::Ir`] for whatever QC-IR's
/// own validation rejects, such as an out-of-range bit.
pub fn translate(circuit: &QiskitCircuitIr) -> (r: Result<Circuit, FrontendError>)
    ensures
        match translation(circuit.instructions@, circuit.instructions@.len()) {
            Err(f) => r is Err && reports(r->Err_0, f),
            Ok(body) => match circuit_error(body, circuit.num_qubits, circuit.num_clbits) {
                None => r matches Ok(c) && c@ == (CircuitModel {
                    name: circuit_name(circuit.name@),
                    num_qubits: circuit.num_qubits,
                    num_clbits: circuit.num_clbits,
                    instructions: body,
                }),
                Some(e) => r matches Err(FrontendError::Ir(ie)) && ie@ == e,
            },
        },
{
    let ghost insts = circuit.instructions@;
    let ghost name = circuit_name(circuit.name@);
    proof {
        reveal_strlit("");
        if circuit.name@.len() == 0 {
            assert(circuit.name@ =~= ""@);
        }
    }
    let mut builder = if is_text(&circuit.name, "") {
        CircuitBuilder::new("main")
    } else {
        CircuitBuilder::new(circuit.name.as_str())
    };
    builder.alloc_qubits(circuit.num_qubits);
    builder.alloc_clbits(circuit.num_clbits);
    let nq = circuit.num_qubits;
    let nc = circuit.num_clbits;
    let mut k: usize = 0;

    while k < circuit.instructions.len()
        invariant
            k <= insts.len(),
            insts == circuit.instructions@,
            name == circuit_name(circuit.name@),
            nq == circuit.num_qubits,
            nc == circuit.num_clbits,
            translation(insts, k as nat) is Ok,
            builder@ == (CircuitModel {
                name: name,
                num_qubits: nq,
                num_clbits: nc,
                instructions: translation(insts, k as nat)->Ok_0,
            }),
        decreases insts.len() - k,
    {
        let inst = &circuit.instructions[k];
        let ghost body = translation(insts, k as nat)->Ok_0;
        proof {
            if inst_outcome(insts[k as int]) is Err {
                lemma_refusal_stays(insts, k as nat + 1, insts.len());
            }
        }
        let lowered = to_ascii_lowercase(inst.name.as_str());
        if is_control_flow_name(&lowered) {
            let mut m = String::new();
            push_str(&mut m, "Qiskit control-flow operation `");
            push_str(&mut m, inst.name.as_str());
            push_str(&mut m, "`; OQCI supports static circuits only");
            return Err(FrontendError::Unsupported(m));
        } else if is_text(&lowered, "barrier") || is_text(&lowered, "delay") {
            proof {
                assert(body + Seq::<InstructionModel>::empty() =~= body);
            }
        } else if is_text(&lowered, "measure") {
            if inst.qubits.len() != inst.clbits.len() {
                let mut m = String::new();
                push_str(&mut m, "measurement pairs ");
                push_decimal(&mut m, inst.qubits.len() as u64);
                push_str(&mut m, " qubit(s) with ");
                push_decimal(&mut m, inst.clbits.len() as u64);
                push_str(&mut m, " classical bit(s)");
                return Err(FrontendError::Semantic(m));
            }
            let ghost qs = inst.qubits@;
            let ghost cs = inst.clbits@;
            let mut j: usize = 0;
            while j < inst.qubits.len()
                invariant
                    j <= qs.len(),
                    qs == inst.qubits@,
                    cs == inst.clbits@,
                    qs.len() == cs.len(),
                    builder@ == (CircuitModel {
                        name: name,
                        num_qubits: nq,
                        num_clbits: nc,
                        instructions: body + Seq::new(
                            j as nat,
                            |i: int| InstructionModel::Measure { qubit: QubitId(qs[i]), target: ClbitId(cs[i]) },
                        ),
                    }),
                decreases qs.len() - j,
            {
                let ghost before = builder@.instructions;
                builder.measure(QubitId(inst.qubits[j]), ClbitId(inst.clbits[j]));
                proof {
                    assert(builder@.instructions =~= body + Seq::new(
                        j as nat + 1,
                        |i: int| InstructionModel::Measure { qubit: QubitId(qs[i]), target: ClbitId(cs[i]) },
                    ));
                }
                j += 1;
            }
        } else if is_text(&lowered, "reset") {
            let ghost qs = inst.qubits@;
            let mut j: usize = 0;
            while j < inst.qubits.len()
                invariant
                    j <= qs.len(),
                    qs == inst.qubits@,
                    builder@ == (CircuitModel {
                        name: name,
                        num_qubits: nq,
                        num_clbits: nc,
                        instructions: body + Seq::new(
                            j as nat,
                            |i: int| InstructionModel::Reset { qubit: QubitId(qs[i]) },
                        ),
                    }),
                decreases qs.len() - j,
            {
                builder.reset(QubitId(inst.qubits[j]));
                proof {
                    assert(builder@.instructions =~= body + Seq::new(
                        j as nat + 1,
                        |i: int| InstructionModel::Reset { qubit: QubitId(qs[i]) },
                    ));
                }
                j += 1;
            }
        } else {
            let params = match convert_params(&inst.params) {
                Ok(ps) => ps,
                Err(text) => {
                    let mut m = String::new();
                    push_str(&mut m, "compound parameter expression `");
                    push_str(&mut m, text.as_str());
                    push_str(&mut m, "` on gate `");
                    push_str(&mut m, inst.name.as_str());
                    push_str(&mut m, "`; only a bare unbound Parameter is representable in QC-IR");
                    return Err(FrontendError::Unsupported(m));
                },
            };
            let ghost ps = params@.map_values(|p: Param| p@);
            let mapped = map_gate(lowered.as_str(), params);
            proof {
                assert(crate::frontend::gate_map::params_model(params@) == ps);
                lemma_map_gate_outcome(lowered@, ps, mapped);
            }
            let kind = match mapped {
                Ok(kind) => kind,
                Err(e) => return Err(e),
            };
            let qubits = qubit_ids(&inst.qubits);
            builder.gate(kind, qubits);
        }
        proof {
            assert(builder@.instructions =~= translation(insts, k as nat + 1)->Ok_0);
        }
        k += 1;
    }
    proof {
        assert(insts.len() == k);
    }
    match builder.build() {
        Ok(c) => Ok(c),
        Err(e) => Err(FrontendError::Ir(e)),
    }
}

} // verus!
