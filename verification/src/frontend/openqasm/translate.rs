//! Resolving OpenQASM's named, indexed registers onto QC-IR's flat, dense
//! qubit and classical-bit spaces, and OpenQASM's broadcast rule.
use vstd::prelude::*;

use crate::frontend::error::FrontendError;
use crate::frontend::gate_map::{map_gate, map_gate_spec, nullary_gate, param_count, param_gate, params_model};
use crate::frontend::openqasm::ast::{Operand, Pos, Statement};
use crate::ir::error::IrErrorModel;
use crate::ir::qc::{circuit_error, Circuit, CircuitBuilder, CircuitModel, InstructionModel};
use crate::ir::types::{clone_params, ClbitId, GateKind, GateModel, Param, ParamModel, QubitId};
use crate::text::{ascii_lowered, decimal, push_decimal, push_str};

verus! {

/// A named register's slice of the flat QC-IR index space.
#[derive(Debug, Clone, Copy, PartialEq, Eq, Structural)]
pub struct Register {
    /// First flat index.
    pub start: u32,
    /// Number of elements.
    pub size: u32,
}

/// A register whose slice fits in the index space.
pub open spec fn register_fits(r: Register) -> bool {
    r.start + r.size <= u32::MAX
}

impl Register {
    /// The flat index of element `index`, if the register has one.
    pub fn resolve(&self, index: u32) -> (r: Option<u32>)
        requires
            register_fits(*self),
        ensures
            r == if index < self.size {
                Some((self.start + index) as u32)
            } else {
                None
            },
    {
        if index < self.size {
            Some(self.start + index)
        } else {
            None
        }
    }
}

/// The registers of one kind declared so far, by name.
pub open spec fn lookup(regs: Seq<(String, Register)>, name: Seq<char>) -> Option<Register>
    decreases regs.len(),
{
    if regs.len() == 0 {
        None
    } else if regs.last().0@ == name {
        Some(regs.last().1)
    } else {
        lookup(regs.drop_last(), name)
    }
}

/// Every register in a list fits in the index space.
pub open spec fn registers_fit(regs: Seq<(String, Register)>) -> bool {
    forall|k: int| 0 <= k < regs.len() ==> register_fits(#[trigger] regs[k].1)
}

/// Looks a register up by name, the latest declaration first.
pub fn find_register(regs: &Vec<(String, Register)>, name: &String) -> (r: Option<Register>)
    ensures
        r == lookup(regs@, name@),
        registers_fit(regs@) && r is Some ==> register_fits(r->0),
{
    let mut i = regs.len();
    proof {
        assert(regs@.take(regs@.len() as int) =~= regs@);
    }
    while i > 0
        invariant
            i <= regs@.len(),
            lookup(regs@, name@) == lookup(regs@.take(i as int), name@),
        decreases i,
    {
        let ghost pre = regs@.take(i as int);
        proof {
            assert(pre.drop_last() =~= regs@.take(i - 1));
            assert(pre.last() == regs@[i - 1]);
        }
        if regs[i - 1].0.eq(name) {
            return Some(regs[i - 1].1);
        }
        i -= 1;
    }
    proof {
        assert(regs@.take(0).len() == 0);
    }
    None
}

/// ` (line L, column C)`, the position suffix of a diagnostic.
pub open spec fn position_text(pos: Pos) -> Seq<char> {
    " (line "@ + decimal(pos.line as nat) + ", column "@ + decimal(pos.column as nat) + ")"@
}

/// The message for an undeclared register.
pub open spec fn undeclared_message(what: Seq<char>, name: Seq<char>, pos: Pos) -> Seq<char> {
    "undeclared "@ + what + " register `"@ + name + "`"@ + position_text(pos)
}

/// The message for an index beyond a register's width.
pub open spec fn out_of_range_message(index: u32, name: Seq<char>, width: u32, pos: Pos) -> Seq<
    char,
> {
    "index "@ + decimal(index as nat) + " is out of range for `"@ + name + "`, which has width "@
        + decimal(width as nat) + position_text(pos)
}

/// The flat indices an operand names, or why it names none.
pub open spec fn expand_spec(
    operand: Operand,
    regs: Seq<(String, Register)>,
    what: Seq<char>,
) -> Result<Seq<u32>, Seq<char>> {
    match lookup(regs, operand.name@) {
        None => Err(undeclared_message(what, operand.name@, operand.pos)),
        Some(reg) => match operand.index {
            Some(index) => if index < reg.size {
                Ok(seq![(reg.start + index) as u32])
            } else {
                Err(out_of_range_message(index, operand.name@, reg.size, operand.pos))
            },
            None => Ok(Seq::new(reg.size as nat, |i: int| (reg.start + i) as u32)),
        },
    }
}

/// `r` is the semantic error with message `m`.
pub open spec fn is_semantic(r: FrontendError, m: Seq<char>) -> bool {
    r matches FrontendError::Semantic(s) && s@ == m
}

/// `r` is the refusal of an unsupported construct with message `m`.
pub open spec fn is_unsupported(r: FrontendError, m: Seq<char>) -> bool {
    r matches FrontendError::Unsupported(s) && s@ == m
}

/// Appends ` (line L, column C)` to a message.
fn push_position(m: &mut String, pos: Pos)
    ensures
        final(m)@ == old(m)@ + position_text(pos),
{
    push_str(m, " (line ");
    push_decimal(m, pos.line as u64);
    push_str(m, ", column ");
    push_decimal(m, pos.column as u64);
    push_str(m, ")");
    proof {
        assert(m@ =~= old(m)@ + position_text(pos));
    }
}

/// Expands one operand to the flat indices it names: a single element, or
/// every element of a whole register.
///
/// # Errors
///
/// A semantic error for an undeclared register or an index beyond its
/// width.
pub fn expand(operand: &Operand, regs: &Vec<(String, Register)>, what: &str) -> (r: Result<
    Vec<u32>,
    FrontendError,
>)
    requires
        registers_fit(regs@),
    ensures
        match (r, expand_spec(*operand, regs@, what@)) {
            (Ok(v), Ok(expected)) => v@ == expected,
            (Err(e), Err(m)) => is_semantic(e, m),
            _ => false,
        },
{
    let reg = match find_register(regs, &operand.name) {
        Some(reg) => reg,
        None => {
            let mut m = String::new();
            push_str(&mut m, "undeclared ");
            push_str(&mut m, what);
            push_str(&mut m, " register `");
            push_str(&mut m, operand.name.as_str());
            push_str(&mut m, "`");
            push_position(&mut m, operand.pos);
            proof {
                assert(m@ =~= undeclared_message(what@, operand.name@, operand.pos));
            }
            return Err(FrontendError::Semantic(m));
        },
    };
    match operand.index {
        Some(index) => match reg.resolve(index) {
            Some(flat) => {
                let v = vec![flat];
                proof {
                    assert(v@ =~= seq![(reg.start + index) as u32]);
                }
                Ok(v)
            },
            None => {
                let mut m = String::new();
                push_str(&mut m, "index ");
                push_decimal(&mut m, index as u64);
                push_str(&mut m, " is out of range for `");
                push_str(&mut m, operand.name.as_str());
                push_str(&mut m, "`, which has width ");
                push_decimal(&mut m, reg.size as u64);
                push_position(&mut m, operand.pos);
                proof {
                    assert(m@ =~= out_of_range_message(index, operand.name@, reg.size, operand.pos));
                }
                Err(FrontendError::Semantic(m))
            },
        },
        None => {
            let mut v: Vec<u32> = Vec::new();
            let mut i: u32 = 0;
            while i < reg.size
                invariant
                    i <= reg.size,
                    register_fits(reg),
                    v@ =~= Seq::new(i as nat, |k: int| (reg.start + k) as u32),
                decreases reg.size - i,
            {
                v.push(reg.start + i);
                i += 1;
            }
            Ok(v)
        },
    }
}

/// The message refusing a gate call that mixes indexed and whole-register
/// operands.
pub open spec fn mixing_message(pos: Pos) -> Seq<char> {
    "mixing indexed and whole-register operands in one gate call"@ + position_text(pos)
}

/// The message refusing a broadcast over registers of different widths.
pub open spec fn widths_message(pos: Pos) -> Seq<char> {
    "cannot broadcast registers of differing widths in one gate call"@ + position_text(pos)
}

/// The first operand, in order, whose expansion fails, with its message.
pub open spec fn first_expand_error(
    operands: Seq<Operand>,
    regs: Seq<(String, Register)>,
    what: Seq<char>,
) -> Option<Seq<char>>
    decreases operands.len(),
{
    if operands.len() == 0 {
        None
    } else {
        match first_expand_error(operands.drop_last(), regs, what) {
            Some(m) => Some(m),
            None => match expand_spec(operands.last(), regs, what) {
                Err(m) => Some(m),
                Ok(_) => None,
            },
        }
    }
}

/// The expansions of the operands, each assumed to succeed.
pub open spec fn expansions(
    operands: Seq<Operand>,
    regs: Seq<(String, Register)>,
    what: Seq<char>,
) -> Seq<Seq<u32>> {
    operands.map_values(|o: Operand| expand_spec(o, regs, what)->Ok_0)
}

/// Concatenation of a list of index lists.
pub open spec fn flatten(xs: Seq<Seq<u32>>) -> Seq<u32>
    decreases xs.len(),
{
    if xs.len() == 0 {
        Seq::empty()
    } else {
        flatten(xs.drop_last()) + xs.last()
    }
}

/// How a gate call's operand list resolves under OpenQASM's broadcast rule:
/// every operand indexed gives one application on their concatenation;
/// every operand a whole register of one common width `n` gives `n`
/// applications, the `i`-th taking element `i` of each register. Mixing the
/// two shapes is refused, and so are different widths.
pub open spec fn broadcast_spec(
    operands: Seq<Operand>,
    regs: Seq<(String, Register)>,
    what: Seq<char>,
    pos: Pos,
) -> Result<Seq<Seq<u32>>, (bool, Seq<char>)> {
    match first_expand_error(operands, regs, what) {
        Some(m) => Err((false, m)),
        None => {
            let ex = expansions(operands, regs, what);
            if forall|k: int| 0 <= k < operands.len() ==> (#[trigger] operands[k]).index is Some {
                Ok(seq![flatten(ex)])
            } else if exists|k: int| 0 <= k < operands.len() && (#[trigger] operands[k]).index is Some {
                Err((true, mixing_message(pos)))
            } else if exists|k: int| 0 <= k < operands.len() && (#[trigger] ex[k]).len() != ex[0].len() {
                Err((false, widths_message(pos)))
            } else {
                Ok(
                    Seq::new(
                        ex[0].len(),
                        |i: int| Seq::new(operands.len(), |k: int| ex[k][i]),
                    ),
                )
            }
        },
    }
}

/// Whether `v` holds the index lists `x`.
pub open spec fn lists_are(v: Seq<Vec<u32>>, x: Seq<Seq<u32>>) -> bool {
    v.len() == x.len() && forall|k: int| 0 <= k < x.len() ==> (#[trigger] v[k])@ == x[k]
}

/// Resolves a gate's operand list, applying OpenQASM's broadcast rule.
///
/// # Errors
///
/// The first operand's expansion error; a refusal when indexed and
/// whole-register operands are mixed; a semantic error when whole registers
/// differ in width.
pub fn broadcast(operands: &Vec<Operand>, regs: &Vec<(String, Register)>, what: &str, pos: Pos) -> (r:
    Result<Vec<Vec<u32>>, FrontendError>)
    requires
        registers_fit(regs@),
    ensures
        match (r, broadcast_spec(operands@, regs@, what@, pos)) {
            (Ok(v), Ok(x)) => lists_are(v@, x),
            (Err(e), Err((unsupported, m))) => if unsupported {
                is_unsupported(e, m)
            } else {
                is_semantic(e, m)
            },
            _ => false,
        },
{
    let ghost ops = operands@;
    let mut expanded: Vec<Vec<u32>> = Vec::new();
    let mut i: usize = 0;
    while i < operands.len()
        invariant
            i <= ops.len(),
            ops == operands@,
            registers_fit(regs@),
            first_expand_error(ops.take(i as int), regs@, what@) is None,
            lists_are(expanded@, expansions(ops.take(i as int), regs@, what@)),
        decreases ops.len() - i,
    {
        let ghost pre = ops.take(i + 1);
        proof {
            assert(pre.drop_last() =~= ops.take(i as int));
            assert(pre.last() == ops[i as int]);
        }
        match expand(&operands[i], regs, what) {
            Ok(v) => {
                expanded.push(v);
                proof {
                    assert(expansions(pre, regs@, what@) =~= expansions(ops.take(i as int), regs@, what@).push(
                        expand_spec(ops[i as int], regs@, what@)->Ok_0,
                    ));
                }
            },
            Err(e) => {
                proof {
                    lemma_first_expand_error_grows(ops, regs@, what@, (i + 1) as nat, ops.len());
                    assert(ops.take(ops.len() as int) =~= ops);
                }
                return Err(e);
            },
        }
        i += 1;
    }
    proof {
        assert(ops.take(ops.len() as int) =~= ops);
    }
    let ghost ex = expansions(ops, regs@, what@);
    let mut indexed: usize = 0;
    let mut k: usize = 0;
    while k < operands.len()
        invariant
            k <= ops.len(),
            ops == operands@,
            indexed <= k,
            indexed == k <==> forall|j: int| 0 <= j < k ==> (#[trigger] ops[j]).index is Some,
            indexed > 0 <==> exists|j: int| 0 <= j < k && (#[trigger] ops[j]).index is Some,
        decreases ops.len() - k,
    {
        if operands[k].index.is_some() {
            indexed += 1;
        } else {
            proof {
                assert(!(ops[k as int].index is Some));
            }
        }
        proof {
            if indexed > 0 && !(exists|j: int| 0 <= j < k && (#[trigger] ops[j]).index is Some) {
                assert(ops[k as int].index is Some);
            }
        }
        k += 1;
    }
    if indexed == operands.len() {
        let mut flat: Vec<u32> = Vec::new();
        let mut j: usize = 0;
        while j < expanded.len()
            invariant
                j <= expanded@.len(),
                lists_are(expanded@, ex),
                flat@ == flatten(ex.take(j as int)),
            decreases expanded@.len() - j,
        {
            let mut t: usize = 0;
            let ghost before = flat@;
            while t < expanded[j].len()
                invariant
                    j < expanded@.len(),
                    t <= expanded@[j as int]@.len(),
                    flat@ == before + expanded@[j as int]@.take(t as int),
                decreases expanded@[j as int]@.len() - t,
            {
                flat.push(expanded[j][t]);
                proof {
                    assert(expanded@[j as int]@.take(t + 1) =~= expanded@[j as int]@.take(t as int).push(
                        expanded@[j as int]@[t as int],
                    ));
                }
                t += 1;
            }
            proof {
                assert(expanded@[j as int]@.take(expanded@[j as int]@.len() as int) =~= expanded@[j as int]@);
                assert(ex.take(j + 1).drop_last() =~= ex.take(j as int));
                assert(ex.take(j + 1).last() == ex[j as int]);
            }
            j += 1;
        }
        proof {
            assert(ex.take(ex.len() as int) =~= ex);
        }
        let mut out: Vec<Vec<u32>> = Vec::new();
        out.push(flat);
        return Ok(out);
    }
    if indexed > 0 {
        let mut m = String::new();
        push_str(&mut m, "mixing indexed and whole-register operands in one gate call");
        push_position(&mut m, pos);
        proof {
            assert(m@ =~= mixing_message(pos));
        }
        return Err(FrontendError::Unsupported(m));
    }
    let width = expanded[0].len();
    proof {
        assert forall|j: int| 0 <= j < ops.len() implies !((#[trigger] ops[j]).index is Some) by {
            if ops[j].index is Some {
                assert(exists|jj: int| 0 <= jj < ops.len() && (#[trigger] ops[jj]).index is Some);
            }
        }
    }
    let mut w: usize = 0;
    while w < expanded.len()
        invariant
            w <= expanded@.len(),
            expanded@.len() > 0,
            lists_are(expanded@, ex),
            width == ex[0].len(),
            forall|j: int| 0 <= j < w ==> (#[trigger] ex[j]).len() == width,
            ops == operands@,
            ex == expansions(ops, regs@, what@),
            ops.len() == expanded@.len(),
            forall|j: int| 0 <= j < ops.len() ==> !((#[trigger] ops[j]).index is Some),
            first_expand_error(ops, regs@, what@) is None,
        decreases expanded@.len() - w,
    {
        if expanded[w].len() != width {
            let mut m = String::new();
            push_str(&mut m, "cannot broadcast registers of differing widths in one gate call");
            push_position(&mut m, pos);
            proof {
                assert(ex[w as int].len() != ex[0].len());
                assert(m@ =~= widths_message(pos));
                assert(!(forall|j: int| 0 <= j < ops.len() ==> (#[trigger] ops[j]).index is Some)) by {
                    assert(!(ops[0].index is Some));
                }
                assert(exists|j: int| 0 <= j < ops.len() && (#[trigger] ex[j]).len() != ex[0].len());
                assert(broadcast_spec(ops, regs@, what@, pos) == Err::<Seq<Seq<u32>>, (bool, Seq<char>)>(
                    (false, widths_message(pos)),
                ));
            }
            return Err(FrontendError::Semantic(m));
        }
        w += 1;
    }
    let mut out: Vec<Vec<u32>> = Vec::new();
    let mut col: usize = 0;
    while col < width
        invariant
            col <= width,
            expanded@.len() > 0,
            lists_are(expanded@, ex),
            width == ex[0].len(),
            forall|j: int| 0 <= j < ex.len() ==> (#[trigger] ex[j]).len() == width,
            out@.len() == col,
            forall|c: int|
                0 <= c < col ==> (#[trigger] out@[c])@ == Seq::new(ex.len(), |k: int| ex[k][c]),
        decreases width - col,
    {
        let mut row: Vec<u32> = Vec::new();
        let mut k2: usize = 0;
        while k2 < expanded.len()
            invariant
                k2 <= expanded@.len(),
                col < width,
                lists_are(expanded@, ex),
                forall|j: int| 0 <= j < ex.len() ==> (#[trigger] ex[j]).len() == width,
                row@ == Seq::new(k2 as nat, |k: int| ex[k][col as int]),
            decreases expanded@.len() - k2,
        {
            proof {
                assert(ex[k2 as int].len() == width);
            }
            row.push(expanded[k2][col]);
            proof {
                assert(row@ =~= Seq::new((k2 + 1) as nat, |k: int| ex[k][col as int]));
            }
            k2 += 1;
        }
        out.push(row);
        col += 1;
    }
    proof {
        let x = Seq::new(ex[0].len(), |i: int| Seq::new(ops.len(), |k: int| ex[k][i]));
        assert(lists_are(out@, x));
    }
    Ok(out)
}

/// The first failing operand of a prefix stays the first one.
proof fn lemma_first_expand_error_grows(
    ops: Seq<Operand>,
    regs: Seq<(String, Register)>,
    what: Seq<char>,
    k: nat,
    j: nat,
)
    requires
        1 <= k <= j <= ops.len(),
        first_expand_error(ops.take(k as int), regs, what) is Some,
    ensures
        first_expand_error(ops.take(j as int), regs, what) == first_expand_error(
            ops.take(k as int),
            regs,
            what,
        ),
    decreases j,
{
    if j > k {
        lemma_first_expand_error_grows(ops, regs, what, k, (j - 1) as nat);
        assert(ops.take(j as int).drop_last() =~= ops.take(j - 1));
    }
}


/// Why translating a program fails, as a value: the message of a semantic
/// error or of a refusal, a parameter-count mismatch, or what QC-IR found
/// wrong with the circuit.
pub enum TranslationError {
    /// A semantic error with this message.
    Semantic(Seq<char>),
    /// A refused construct, with this message.
    Unsupported(Seq<char>),
    /// A gate given the wrong number of angles.
    ParamArity {
        /// The mnemonic, lowered.
        gate: Seq<char>,
        /// Angles it takes.
        expected: nat,
        /// Angles it was given.
        found: nat,
    },
    /// QC-IR rejected the circuit built.
    Ir(IrErrorModel),
}

/// `e` is the frontend error that `m` describes.
pub open spec fn reports_translation(e: FrontendError, m: TranslationError) -> bool {
    match m {
        TranslationError::Semantic(s) => is_semantic(e, s),
        TranslationError::Unsupported(s) => is_unsupported(e, s),
        TranslationError::ParamArity { gate, expected, found } => e matches FrontendError::ParamArity {
            gate: g,
            expected: x,
            found: f,
        } && g@ == gate && x == expected && f == found,
        TranslationError::Ir(ie) => e matches FrontendError::Ir(i) && i@ == ie,
    }
}

/// What a call's mnemonic denotes, or why it denotes nothing: it is matched after
/// lowering it ASCII-wise; a registered name with the right number of angles
/// gives its gate, with the wrong number a parameter-count error; any other
/// name an opaque gate carrying the name as written.
pub open spec fn gate_result(name: Seq<char>, ps: Seq<ParamModel>) -> Result<GateModel, TranslationError> {
    let n = ascii_lowered(name);
    match nullary_gate(n) {
        Some(g) => if ps.len() == 0 {
            Ok(g)
        } else {
            Err(TranslationError::ParamArity { gate: n, expected: 0, found: ps.len() })
        },
        None => match param_count(n) {
            Some(c) => if ps.len() == c {
                Ok(param_gate(n, ps))
            } else {
                Err(TranslationError::ParamArity { gate: n, expected: c, found: ps.len() })
            },
            None => Ok(GateModel::Opaque { name, params: ps }),
        },
    }
}

/// What a translation has gathered so far: the qubit and classical-bit
/// registers in declaration order, the declared input names, and the circuit
/// under construction.
pub struct TranslationModel {
    /// Qubit registers, by name.
    pub qubits: Seq<(String, Register)>,
    /// Classical-bit registers, by name.
    pub clbits: Seq<(String, Register)>,
    /// Declared `input` parameters.
    pub inputs: Seq<Seq<char>>,
    /// The circuit built so far.
    pub circuit: CircuitModel,
}

/// Nothing declared yet, and an empty circuit with the given name.
pub open spec fn start_model(name: Seq<char>) -> TranslationModel {
    TranslationModel {
        qubits: Seq::empty(),
        clbits: Seq::empty(),
        inputs: Seq::empty(),
        circuit: CircuitModel {
            name,
            num_qubits: 0,
            num_clbits: 0,
            instructions: Seq::empty(),
        },
    }
}

/// The message refusing a second declaration of a register name.
pub open spec fn redeclared_message(name: Seq<char>, pos: Pos) -> Seq<char> {
    "register `"@ + name + "` is already declared"@ + position_text(pos)
}

/// The message refusing a register that takes a count past `u32::MAX`.
pub open spec fn overflow_message(name: Seq<char>, what: Seq<char>, pos: Pos) -> Seq<char> {
    "register `"@ + name + "` takes the "@ + what + " count past "@ + decimal(u32::MAX as nat)
        + position_text(pos)
}

/// The message refusing a second declaration of an input parameter.
pub open spec fn input_redeclared_message(name: Seq<char>, pos: Pos) -> Seq<char> {
    "parameter `"@ + name + "` is already declared"@ + position_text(pos)
}

/// The message refusing a measurement whose two sides differ in width.
pub open spec fn measure_widths_message(qubits: nat, clbits: nat, pos: Pos) -> Seq<char> {
    "measurement broadcasts "@ + decimal(qubits) + " qubit(s) onto "@ + decimal(clbits)
        + " classical bit(s)"@ + position_text(pos)
}

/// The state with more instructions appended to the circuit.
pub open spec fn with_instructions(s: TranslationModel, more: Seq<InstructionModel>) -> TranslationModel {
    TranslationModel {
        circuit: CircuitModel { instructions: s.circuit.instructions + more, ..s.circuit },
        ..s
    }
}

/// Declaring a qubit register (`quantum`) or a classical-bit register:
/// refused when the name is taken in either space or the count would pass
/// `u32::MAX`; else the register takes the next `size` indices (one when
/// no size is written).
pub open spec fn declare_spec(
    s: TranslationModel,
    name: String,
    size: Option<u32>,
    pos: Pos,
    quantum: bool,
) -> Result<TranslationModel, TranslationError> {
    let n: u32 = match size {
        Some(k) => k,
        None => 1u32,
    };
    if lookup(s.qubits, name@) is Some || lookup(s.clbits, name@) is Some {
        Err(TranslationError::Semantic(redeclared_message(name@, pos)))
    } else if quantum {
        if s.circuit.num_qubits + n > u32::MAX {
            Err(TranslationError::Semantic(overflow_message(name@, "qubit"@, pos)))
        } else {
            Ok(
                TranslationModel {
                    qubits: s.qubits.push((name, Register { start: s.circuit.num_qubits, size: n })),
                    circuit: CircuitModel {
                        num_qubits: (s.circuit.num_qubits + n) as u32,
                        ..s.circuit
                    },
                    ..s
                },
            )
        }
    } else {
        if s.circuit.num_clbits + n > u32::MAX {
            Err(TranslationError::Semantic(overflow_message(name@, "classical bit"@, pos)))
        } else {
            Ok(
                TranslationModel {
                    clbits: s.clbits.push((name, Register { start: s.circuit.num_clbits, size: n })),
                    circuit: CircuitModel {
                        num_clbits: (s.circuit.num_clbits + n) as u32,
                        ..s.circuit
                    },
                    ..s
                },
            )
        }
    }
}

/// One gate application per broadcast target list.
pub open spec fn gate_instructions(g: GateModel, targets: Seq<Seq<u32>>) -> Seq<InstructionModel> {
    Seq::new(
        targets.len(),
        |i: int| InstructionModel::Gate { kind: g, qubits: targets[i].map_values(|x: u32| QubitId(x)) },
    )
}

/// Measurements pairing each qubit with the classical bit at its place.
pub open spec fn measure_instructions(qs: Seq<u32>, cs: Seq<u32>) -> Seq<InstructionModel> {
    Seq::new(
        qs.len(),
        |i: int| InstructionModel::Measure { qubit: QubitId(qs[i]), target: ClbitId(cs[i]) },
    )
}

/// A reset of each qubit.
pub open spec fn reset_instructions(qs: Seq<u32>) -> Seq<InstructionModel> {
    Seq::new(qs.len(), |i: int| InstructionModel::Reset { qubit: QubitId(qs[i]) })
}

/// What one statement does to a translation, given the angles of a gate
/// call: declarations add registers or inputs; a gate call resolves its
/// operands by the broadcast rule and applies its gate to each target list
/// (resolving its mnemonic only when there is at least one); a measurement pairs
/// source and target element-wise; a reset resets every qubit named.
pub open spec fn step_spec(s: TranslationModel, st: Statement, ps: Seq<ParamModel>) -> Result<
    TranslationModel,
    TranslationError,
> {
    match st {
        Statement::Include(_) => Ok(s),
        Statement::QubitDecl { name, size, pos } => declare_spec(s, name, size, pos, true),
        Statement::BitDecl { name, size, pos } => declare_spec(s, name, size, pos, false),
        Statement::InputDecl { name, pos } => if s.inputs.contains(name@) {
            Err(TranslationError::Semantic(input_redeclared_message(name@, pos)))
        } else {
            Ok(TranslationModel { inputs: s.inputs.push(name@), ..s })
        },
        Statement::GateCall { name, operands, pos } => match broadcast_spec(
            operands@,
            s.qubits,
            "qubit"@,
            pos,
        ) {
            Err((unsupported, m)) => if unsupported {
                Err(TranslationError::Unsupported(m))
            } else {
                Err(TranslationError::Semantic(m))
            },
            Ok(targets) => if targets.len() == 0 {
                Ok(s)
            } else {
                match gate_result(name@, ps) {
                    Err(e) => Err(e),
                    Ok(g) => Ok(with_instructions(s, gate_instructions(g, targets))),
                }
            },
        },
        Statement::Measure { source, target, pos } => measure_spec(s, source, target, pos),
        Statement::Reset { target, pos } => reset_spec(s, target),
    }
}

/// A measurement: source and target resolve, and must name as many qubits
/// as classical bits; each qubit is measured into the bit at its place.
pub open spec fn measure_spec(s: TranslationModel, source: Operand, target: Operand, pos: Pos) -> Result<
    TranslationModel,
    TranslationError,
> {
    match expand_spec(source, s.qubits, "qubit"@) {
        Err(m) => Err(TranslationError::Semantic(m)),
        Ok(qs) => match expand_spec(target, s.clbits, "classical bit"@) {
            Err(m) => Err(TranslationError::Semantic(m)),
            Ok(cs) => if qs.len() != cs.len() {
                Err(TranslationError::Semantic(measure_widths_message(qs.len(), cs.len(), pos)))
            } else {
                Ok(with_instructions(s, measure_instructions(qs, cs)))
            },
        },
    }
}

/// A reset of every qubit the operand names.
pub open spec fn reset_spec(s: TranslationModel, target: Operand) -> Result<TranslationModel, TranslationError> {
    match expand_spec(target, s.qubits, "qubit"@) {
        Err(m) => Err(TranslationError::Semantic(m)),
        Ok(qs) => Ok(with_instructions(s, reset_instructions(qs))),
    }
}

/// The first `k` statements translated in order from `s`, stopping at the
/// first failure.
pub open spec fn run_statements(
    stmts: Seq<Statement>,
    pss: Seq<Seq<ParamModel>>,
    s: TranslationModel,
    k: nat,
) -> Result<TranslationModel, TranslationError>
    decreases k,
{
    if k == 0 {
        Ok(s)
    } else {
        match run_statements(stmts, pss, s, (k - 1) as nat) {
            Err(e) => Err(e),
            Ok(t) => step_spec(t, stmts[k - 1], pss[k - 1]),
        }
    }
}

/// The circuit a finished translation yields, or QC-IR's first complaint
/// about it.
pub open spec fn finish_spec(s: TranslationModel) -> Result<CircuitModel, TranslationError> {
    match circuit_error(s.circuit.instructions, s.circuit.num_qubits, s.circuit.num_clbits) {
        Some(e) => Err(TranslationError::Ir(e)),
        None => Ok(s.circuit),
    }
}

/// Translating a whole program into a circuit with the given name.
pub open spec fn translation_spec(stmts: Seq<Statement>, pss: Seq<Seq<ParamModel>>, name: Seq<char>) -> Result<
    CircuitModel,
    TranslationError,
> {
    match run_statements(stmts, pss, start_model(name), stmts.len()) {
        Err(e) => Err(e),
        Ok(s) => finish_spec(s),
    }
}

/// The angle lists of a program's statements.
pub open spec fn param_lists(ps: Seq<Vec<Param>>) -> Seq<Seq<ParamModel>> {
    ps.map_values(|v: Vec<Param>| params_model(v@))
}

/// A translation in progress: registers are laid out in declaration order
/// on QC-IR's flat index spaces, and every statement is replayed through
/// the circuit builder.
pub struct Translation {
    builder: CircuitBuilder,
    qubits: Vec<(String, Register)>,
    clbits: Vec<(String, Register)>,
    inputs: Vec<String>,
}

impl View for Translation {
    type V = TranslationModel;

    closed spec fn view(&self) -> TranslationModel {
        TranslationModel {
            qubits: self.qubits@,
            clbits: self.clbits@,
            inputs: self.inputs@.map_values(|n: String| n@),
            circuit: self.builder@,
        }
    }
}

/// Every register a translation has laid out fits in its index space.
pub open spec fn translation_wf(m: TranslationModel) -> bool {
    registers_fit(m.qubits) && registers_fit(m.clbits)
}

impl Translation {
    /// A translation that has declared nothing, building a circuit called
    /// `name`.
    pub fn new(name: &str) -> (r: Translation)
        ensures
            r@ == start_model(name@),
            translation_wf(r@),
    {
        let r = Translation {
            builder: CircuitBuilder::new(name),
            qubits: Vec::new(),
            clbits: Vec::new(),
            inputs: Vec::new(),
        };
        proof {
            assert(r@.inputs =~= Seq::<Seq<char>>::empty());
        }
        r
    }

    /// Whether `name` is a declared `input` parameter.
    pub fn is_input(&self, name: &String) -> (r: bool)
        ensures
            r == self@.inputs.contains(name@),
    {
        let ghost names = self@.inputs;
        let mut k: usize = 0;
        while k < self.inputs.len()
            invariant
                k <= self.inputs@.len(),
                names == self.inputs@.map_values(|n: String| n@),
                forall|j: int| 0 <= j < k ==> names[j] != name@,
            decreases self.inputs@.len() - k,
        {
            if self.inputs[k].eq(name) {
                proof {
                    assert(names[k as int] == name@);
                }
                return true;
            }
            k += 1;
        }
        false
    }

    /// Declares a qubit or classical-bit register.
    fn declare(&mut self, name: &String, size: Option<u32>, pos: Pos, quantum: bool) -> (r: Result<
        (),
        FrontendError,
    >)
        requires
            translation_wf(old(self)@),
        ensures
            translation_wf(final(self)@),
            match declare_spec(old(self)@, *name, size, pos, quantum) {
                Ok(m) => r is Ok && final(self)@ == m,
                Err(e) => r is Err && reports_translation(r->Err_0, e),
            },
    {
        if find_register(&self.qubits, name).is_some() || find_register(&self.clbits, name).is_some() {
            let mut m = String::new();
            push_str(&mut m, "register `");
            push_str(&mut m, name.as_str());
            push_str(&mut m, "` is already declared");
            push_position(&mut m, pos);
            proof {
                assert(m@ =~= redeclared_message(name@, pos));
            }
            return Err(FrontendError::Semantic(m));
        }
        let n: u32 = match size {
            Some(k) => k,
            None => 1,
        };
        let total = if quantum {
            self.builder.num_qubits()
        } else {
            self.builder.num_clbits()
        };
        if n > u32::MAX - total {
            let mut m = String::new();
            push_str(&mut m, "register `");
            push_str(&mut m, name.as_str());
            push_str(&mut m, "` takes the ");
            if quantum {
                push_str(&mut m, "qubit");
            } else {
                push_str(&mut m, "classical bit");
            }
            push_str(&mut m, " count past ");
            push_decimal(&mut m, u32::MAX as u64);
            push_position(&mut m, pos);
            proof {
                if quantum {
                    assert(m@ =~= overflow_message(name@, "qubit"@, pos));
                } else {
                    assert(m@ =~= overflow_message(name@, "classical bit"@, pos));
                }
            }
            return Err(FrontendError::Semantic(m));
        }
        let ghost before = self@;
        if quantum {
            self.builder.alloc_qubits(n);
            self.qubits.push((name.clone(), Register { start: total, size: n }));
        } else {
            self.builder.alloc_clbits(n);
            self.clbits.push((name.clone(), Register { start: total, size: n }));
        }
        proof {
            assert(self@.inputs =~= before.inputs);
        }
        Ok(())
    }

    /// Translates one statement; `params` are the angles of a gate call
    /// (ignored for any other statement).
    ///
    /// # Errors
    ///
    /// A semantic error for a name declared twice, a register taking a count
    /// past `u32::MAX`, an operand that does not resolve, or a measurement
    /// over differing widths; a refusal for mixed broadcast shapes; a
    /// parameter-count error for a registered gate given the wrong number of
    /// angles.
    pub fn step(&mut self, statement: &Statement, params: Vec<Param>) -> (r: Result<(), FrontendError>)
        requires
            translation_wf(old(self)@),
        ensures
            translation_wf(final(self)@),
            match step_spec(old(self)@, *statement, params_model(params@)) {
                Ok(m) => r is Ok && final(self)@ == m,
                Err(e) => r is Err && reports_translation(r->Err_0, e),
            },
    {
        match statement {
            Statement::Include(_) => Ok(()),
            Statement::QubitDecl { name, size, pos } => self.declare(name, *size, *pos, true),
            Statement::BitDecl { name, size, pos } => self.declare(name, *size, *pos, false),
            Statement::InputDecl { name, pos } => {
                if self.is_input(name) {
                    let mut m = String::new();
                    push_str(&mut m, "parameter `");
                    push_str(&mut m, name.as_str());
                    push_str(&mut m, "` is already declared");
                    push_position(&mut m, *pos);
                    proof {
                        assert(m@ =~= input_redeclared_message(name@, *pos));
                    }
                    return Err(FrontendError::Semantic(m));
                }
                let ghost before = self@;
                self.inputs.push(name.clone());
                proof {
                    assert(self@.inputs =~= before.inputs.push(name@));
                }
                Ok(())
            },
            Statement::GateCall { name, operands, pos } => self.apply_gate(name, operands, *pos, params),
            Statement::Measure { source, target, pos } => self.measure(source, target, *pos),
            Statement::Reset { target, pos } => self.reset(target),
        }
    }

    /// Applies a gate call to every target list its operands broadcast to.
    fn apply_gate(&mut self, name: &String, operands: &Vec<Operand>, pos: Pos, params: Vec<Param>) -> (r:
        Result<(), FrontendError>)
        requires
            translation_wf(old(self)@),
        ensures
            translation_wf(final(self)@),
            match step_spec(
                old(self)@,
                Statement::GateCall { name: *name, operands: *operands, pos },
                params_model(params@),
            ) {
                Ok(m) => r is Ok && final(self)@ == m,
                Err(e) => r is Err && reports_translation(r->Err_0, e),
            },
    {
        let targets = match broadcast(operands, &self.qubits, "qubit", pos) {
            Ok(t) => t,
            Err(e) => {
                return Err(e);
            },
        };
        let ghost tx = broadcast_spec(operands@, self@.qubits, "qubit"@, pos)->Ok_0;
        if targets.len() == 0 {
            return Ok(());
        }
        let ghost ps = params_model(params@);
        let kind = match map_gate(name.as_str(), params) {
            Ok(k) => k,
            Err(e) => {
                return Err(e);
            },
        };
        let ghost g = kind@;
        let ghost before = self@;
        let mut i: usize = 0;
        while i < targets.len()
            invariant
                i <= targets@.len(),
                lists_are(targets@, tx),
                g == kind@,
                translation_wf(self@),
                self@ == with_instructions(before, gate_instructions(g, tx.take(i as int))),
            decreases targets@.len() - i,
        {
            let row = &targets[i];
            let mut qs: Vec<QubitId> = Vec::new();
            let mut j: usize = 0;
            while j < row.len()
                invariant
                    j <= row@.len(),
                    qs@ == row@.take(j as int).map_values(|x: u32| QubitId(x)),
                decreases row@.len() - j,
            {
                qs.push(QubitId(row[j]));
                j += 1;
                proof {
                    assert(row@.take(j as int).map_values(|x: u32| QubitId(x)) =~= row@.take(
                        j - 1,
                    ).map_values(|x: u32| QubitId(x)).push(QubitId(row@[j - 1])));
                }
            }
            proof {
                assert(row@.take(row@.len() as int) =~= row@);
                assert(row@ == tx[i as int]);
                assert(gate_instructions(g, tx.take(i + 1)) =~= gate_instructions(
                    g,
                    tx.take(i as int),
                ).push(InstructionModel::Gate { kind: g, qubits: qs@ }));
            }
            self.builder.gate(kind.clone(), qs);
            i += 1;
        }
        proof {
            assert(tx.take(tx.len() as int) =~= tx);
        }
        Ok(())
    }

    /// Measures each qubit a source operand names into the classical bit at
    /// the same place in the target operand.
    fn measure(&mut self, source: &Operand, target: &Operand, pos: Pos) -> (r: Result<(), FrontendError>)
        requires
            translation_wf(old(self)@),
        ensures
            translation_wf(final(self)@),
            match measure_spec(old(self)@, *source, *target, pos) {
                Ok(m) => r is Ok && final(self)@ == m,
                Err(e) => r is Err && reports_translation(r->Err_0, e),
            },
    {
        let qs = match expand(source, &self.qubits, "qubit") {
            Ok(v) => v,
            Err(e) => {
                return Err(e);
            },
        };
        let cs = match expand(target, &self.clbits, "classical bit") {
            Ok(v) => v,
            Err(e) => {
                return Err(e);
            },
        };
        if qs.len() != cs.len() {
            let mut m = String::new();
            push_str(&mut m, "measurement broadcasts ");
            push_decimal(&mut m, qs.len() as u64);
            push_str(&mut m, " qubit(s) onto ");
            push_decimal(&mut m, cs.len() as u64);
            push_str(&mut m, " classical bit(s)");
            push_position(&mut m, pos);
            proof {
                assert(m@ =~= measure_widths_message(qs@.len(), cs@.len(), pos));
            }
            return Err(FrontendError::Semantic(m));
        }
        let ghost before = self@;
        let mut i: usize = 0;
        while i < qs.len()
            invariant
                i <= qs@.len(),
                qs@.len() == cs@.len(),
                translation_wf(self@),
                self@ == with_instructions(before, measure_instructions(qs@.take(i as int), cs@.take(i as int))),
            decreases qs@.len() - i,
        {
            proof {
                assert(measure_instructions(qs@.take(i + 1), cs@.take(i + 1)) =~= measure_instructions(
                    qs@.take(i as int),
                    cs@.take(i as int),
                ).push(InstructionModel::Measure { qubit: QubitId(qs@[i as int]), target: ClbitId(cs@[i as int]) }));
            }
            self.builder.measure(QubitId(qs[i]), ClbitId(cs[i]));
            i += 1;
        }
        proof {
            assert(qs@.take(qs@.len() as int) =~= qs@);
            assert(cs@.take(cs@.len() as int) =~= cs@);
        }
        Ok(())
    }

    /// Resets every qubit an operand names.
    fn reset(&mut self, target: &Operand) -> (r: Result<(), FrontendError>)
        requires
            translation_wf(old(self)@),
        ensures
            translation_wf(final(self)@),
            match reset_spec(old(self)@, *target) {
                Ok(m) => r is Ok && final(self)@ == m,
                Err(e) => r is Err && reports_translation(r->Err_0, e),
            },
    {
        let qs = match expand(target, &self.qubits, "qubit") {
            Ok(v) => v,
            Err(e) => {
                return Err(e);
            },
        };
        let ghost before = self@;
        let mut i: usize = 0;
        while i < qs.len()
            invariant
                i <= qs@.len(),
                translation_wf(self@),
                self@ == with_instructions(before, reset_instructions(qs@.take(i as int))),
            decreases qs@.len() - i,
        {
            proof {
                assert(reset_instructions(qs@.take(i + 1)) =~= reset_instructions(qs@.take(i as int)).push(
                    InstructionModel::Reset { qubit: QubitId(qs@[i as int]) },
                ));
            }
            self.builder.reset(QubitId(qs[i]));
            i += 1;
        }
        proof {
            assert(qs@.take(qs@.len() as int) =~= qs@);
        }
        Ok(())
    }

    /// The circuit the statements translated so far describe.
    ///
    /// # Errors
    ///
    /// [`FrontendError::Ir`] with QC-IR's first complaint about it.
    pub fn finish(self) -> (r: Result<Circuit, FrontendError>)
        ensures
            match finish_spec(self@) {
                Ok(c) => r is Ok && r->Ok_0@ == c,
                Err(e) => r is Err && reports_translation(r->Err_0, e),
            },
    {
        match self.builder.build() {
            Ok(c) => Ok(c),
            Err(e) => Err(FrontendError::Ir(e)),
        }
    }
}

/// Translates a program's statements, in order, into a circuit called
/// `name`; `params[k]` holds the angles of statement `k` when it is a gate
/// call.
///
/// # Errors
///
/// The first statement's failure, as [`Translation::step`] reports it; else
/// QC-IR's first complaint about the circuit built.
pub fn translate_statements(statements: &[Statement], params: &[Vec<Param>], name: &str) -> (r: Result<
    Circuit,
    FrontendError,
>)
    requires
        params@.len() == statements@.len(),
    ensures
        match translation_spec(statements@, param_lists(params@), name@) {
            Ok(c) => r is Ok && r->Ok_0@ == c,
            Err(e) => r is Err && reports_translation(r->Err_0, e),
        },
{
    let ghost pss = param_lists(params@);
    let mut t = Translation::new(name);
    let mut k: usize = 0;
    while k < statements.len()
        invariant
            k <= statements@.len(),
            params@.len() == statements@.len(),
            pss == param_lists(params@),
            translation_wf(t@),
            run_statements(statements@, pss, start_model(name@), k as nat) == Ok::<
                TranslationModel,
                TranslationError,
            >(t@),
        decreases statements@.len() - k,
    {
        let ps = clone_params(&params[k]);
        proof {
            assert(params_model(ps@) == pss[k as int]);
        }
        match t.step(&statements[k], ps) {
            Ok(()) => {},
            Err(e) => {
                proof {
                    lemma_run_stops(statements@, pss, start_model(name@), (k + 1) as nat, statements@.len());
                }
                return Err(e);
            },
        }
        k += 1;
    }
    t.finish()
}

/// Once a prefix of statements fails, every longer prefix fails the same
/// way.
proof fn lemma_run_stops(
    stmts: Seq<Statement>,
    pss: Seq<Seq<ParamModel>>,
    s: TranslationModel,
    k: nat,
    j: nat,
)
    requires
        k <= j,
        run_statements(stmts, pss, s, k) is Err,
    ensures
        run_statements(stmts, pss, s, j) == run_statements(stmts, pss, s, k),
    decreases j,
{
    if j > k {
        lemma_run_stops(stmts, pss, s, k, (j - 1) as nat);
    }
}

} // verus!
