//! Resource reports: gate counts, depth and parallel width of a circuit.
use vstd::prelude::*;

use crate::ir::convert::{qc_to_qco, qco_fits};
use crate::ir::error::IrError;
use crate::ir::qc::{inst_qubits, insts_model, Circuit, CircuitModel, Instruction, InstructionModel};
use crate::ir::qco::linear_ops;
use crate::ir::types::{gate_mnemonic, GateKind};
use crate::pass::schedule::{circuit_depth, circuit_width, widest};

verus! {

/// The name an instruction is counted under: a gate's mnemonic, or
/// `measure` / `reset`.
pub open spec fn inst_name(inst: InstructionModel) -> Seq<char> {
    match inst {
        InstructionModel::Gate { kind, .. } => gate_mnemonic(kind),
        InstructionModel::Measure { .. } => "measure"@,
        InstructionModel::Reset { .. } => "reset"@,
    }
}

/// How many instructions of `s` satisfy `f`.
pub open spec fn count_where(s: Seq<InstructionModel>, f: spec_fn(InstructionModel) -> bool) -> nat
    decreases s.len(),
{
    if s.len() == 0 {
        0
    } else {
        count_where(s.drop_last(), f) + if f(s.last()) {
            1nat
        } else {
            0nat
        }
    }
}

/// Gates on exactly one qubit.
pub open spec fn one_qubit_gate() -> spec_fn(InstructionModel) -> bool {
    |i: InstructionModel| i is Gate && inst_qubits(i).len() == 1
}

/// Gates on more than one qubit.
pub open spec fn multi_qubit_gate() -> spec_fn(InstructionModel) -> bool {
    |i: InstructionModel| i is Gate && inst_qubits(i).len() != 1
}

/// Measurements.
pub open spec fn measurement() -> spec_fn(InstructionModel) -> bool {
    |i: InstructionModel| i is Measure
}

/// Resets.
pub open spec fn reset() -> spec_fn(InstructionModel) -> bool {
    |i: InstructionModel| i is Reset
}

/// Instructions counted under `name`.
pub open spec fn named(name: Seq<char>) -> spec_fn(InstructionModel) -> bool {
    |i: InstructionModel| inst_name(i) == name
}

/// Whether a list of `(name, count)` entries tallies `insts` by name: one
/// entry per name that occurs, each with its exact count.
pub open spec fn tallies(entries: Seq<(String, usize)>, insts: Seq<InstructionModel>) -> bool {
    &&& forall|a: int, b: int| 0 <= a < b < entries.len() ==> (#[trigger] entries[a]).0@ != (#[trigger] entries[b]).0@
    &&& forall|a: int| 0 <= a < entries.len() ==> (#[trigger] entries[a]).1 == count_where(insts, named(entries[a].0@))
    &&& forall|i: int| 0 <= i < insts.len() ==> exists|a: int| 0 <= a < entries.len() && (#[trigger] entries[a]).0@ == inst_name(#[trigger] insts[i])
}

/// Static resource counts for a circuit.
#[derive(Debug, Clone, PartialEq, Eq, Default)]
pub struct ResourceReport {
    /// Declared qubit-register width.
    pub num_qubits: u32,
    /// Declared classical-register width.
    pub num_clbits: u32,
    /// Total instruction count.
    pub op_count: usize,
    /// Gates acting on exactly one qubit.
    pub one_qubit_count: usize,
    /// Gates acting on more than one qubit.
    pub two_qubit_count: usize,
    /// Measurements.
    pub measure_count: usize,
    /// Resets.
    pub reset_count: usize,
    /// Instruction counts by name (gate mnemonic, `measure`, `reset`), one
    /// entry per name, in order of first occurrence.
    pub gate_counts: Vec<(String, usize)>,
    /// ASAP depth.
    pub depth: usize,
    /// Largest number of operations in one ASAP layer.
    pub max_parallel_width: usize,
}

impl ResourceReport {
    /// The count recorded under `name`; zero when the name never occurs.
    pub fn gate_count(&self, name: &str) -> (r: usize)
        ensures
            (exists|a: int| 0 <= a < self.gate_counts@.len() && (#[trigger] self.gate_counts@[a]).0@ == name@) ==> exists|a: int|
                0 <= a < self.gate_counts@.len() && (#[trigger] self.gate_counts@[a]).0@ == name@ && r == self.gate_counts@[a].1,
            !(exists|a: int| 0 <= a < self.gate_counts@.len() && (#[trigger] self.gate_counts@[a]).0@ == name@) ==> r == 0,
    {
        let target = name.to_string();
        let mut a: usize = 0;
        while a < self.gate_counts.len()
            invariant
                a <= self.gate_counts@.len(),
                target@ == name@,
                forall|b: int| 0 <= b < a ==> (#[trigger] self.gate_counts@[b]).0@ != name@,
            decreases self.gate_counts@.len() - a,
        {
            if self.gate_counts[a].0.eq(&target) {
                return self.gate_counts[a].1;
            }
            a += 1;
        }
        0
    }
}

/// Counts a circuit's resources: its widths and length, its gates by arity,
/// its measurements and resets, its instructions by name, and the depth and
/// widest layer of its ASAP schedule.
///
/// # Errors
///
/// Propagates [`IrError`] from the QCO-IR conversion, which never fails on
/// a valid circuit.
pub fn analyze(circuit: &Circuit) -> (r: Result<ResourceReport, IrError>)
    requires
        qco_fits(circuit@.instructions, circuit@.num_qubits, circuit@.num_clbits),
    ensures
        r is Ok,
        r matches Ok(report) ==> {
            let insts = circuit@.instructions;
            &&& report.num_qubits == circuit@.num_qubits
            &&& report.num_clbits == circuit@.num_clbits
            &&& report.op_count == insts.len()
            &&& report.one_qubit_count == count_where(insts, one_qubit_gate())
            &&& report.two_qubit_count == count_where(insts, multi_qubit_gate())
            &&& report.measure_count == count_where(insts, measurement())
            &&& report.reset_count == count_where(insts, reset())
            &&& tallies(report.gate_counts@, insts)
            &&& report.depth == circuit_depth(circuit@)
            &&& report.max_parallel_width == circuit_width(circuit@)
        },
{
    let dag = qc_to_qco(circuit)?;
    let layers = dag.layers()?;
    proof {
        crate::ir::convert::lemma_round_trip(
            circuit@.name,
            circuit@.instructions,
            circuit@.num_qubits,
            circuit@.num_clbits,
        );
    }
    let depth = layers.len();
    let width = crate::pass::schedule::widest_layer(&layers, Ghost(dag@), Ghost(linear_ops(dag@).len()));
    let instrs = circuit.instructions();
    let ghost insts = circuit@.instructions;
    let mut one: usize = 0;
    let mut multi: usize = 0;
    let mut measures: usize = 0;
    let mut resets: usize = 0;
    let mut gate_counts: Vec<(String, usize)> = Vec::new();
    let mut i: usize = 0;
    while i < instrs.len()
        invariant
            i <= instrs@.len(),
            insts_model(instrs@) == insts,
            instrs@.len() == insts.len(),
            one == count_where(insts.take(i as int), one_qubit_gate()),
            multi == count_where(insts.take(i as int), multi_qubit_gate()),
            measures == count_where(insts.take(i as int), measurement()),
            resets == count_where(insts.take(i as int), reset()),
            one + multi + measures + resets == i,
            tallies(gate_counts@, insts.take(i as int)),
        decreases instrs@.len() - i,
    {
        let ghost pre = insts.take(i as int);
        let ghost cur = insts.take(i as int + 1);
        proof {
            assert(cur.drop_last() =~= pre);
            assert(cur.last() == instrs@[i as int]@);
        }
        let name = match &instrs[i] {
            Instruction::Gate { kind, qubits } => {
                if qubits.len() == 1 {
                    one += 1;
                } else {
                    multi += 1;
                }
                gate_mnemonic_of(kind)
            },
            Instruction::Measure { .. } => {
                measures += 1;
                "measure".to_string()
            },
            Instruction::Reset { .. } => {
                resets += 1;
                "reset".to_string()
            },
        };
        proof {
            assert(name@ == inst_name(cur.last()));
        }
        let ghost entries_before = gate_counts@;
        let mut a: usize = 0;
        let mut found = false;
        while a < gate_counts.len()
            invariant_except_break
                !found,
            invariant
                a <= gate_counts@.len(),
                gate_counts@ == entries_before,
                forall|b: int| 0 <= b < a ==> (#[trigger] gate_counts@[b]).0@ != name@,
            ensures
                a <= gate_counts@.len(),
                gate_counts@ == entries_before,
                found ==> a < gate_counts@.len() && gate_counts@[a as int].0@ == name@,
                !found ==> a == gate_counts@.len() && forall|b: int| 0 <= b < gate_counts@.len() ==> (#[trigger] gate_counts@[b]).0@ != name@,
            decreases gate_counts@.len() - a,
        {
            if gate_counts[a].0.eq(&name) {
                found = true;
                break;
            }
            a += 1;
        }
        if found {
            let count = gate_counts[a].1;
            proof {
                assert(count == count_where(pre, named(name@)));
                assert(count <= i) by {
                    lemma_count_bound(pre, named(name@));
                }
            }
            let mut entry = (String::new(), 0usize);
            std::mem::swap(&mut entry, &mut gate_counts[a]);
            entry.1 = count + 1;
            std::mem::swap(&mut entry, &mut gate_counts[a]);
            proof {
                assert forall|b: int| 0 <= b < gate_counts@.len() implies (#[trigger] gate_counts@[b]).1 == count_where(
                    cur,
                    named(gate_counts@[b].0@),
                ) by {
                    if b != a {
                        assert(gate_counts@[b] == entries_before[b]);
                    }
                }
                assert forall|j: int| 0 <= j < cur.len() implies exists|b: int| 0 <= b < gate_counts@.len() && (#[trigger] gate_counts@[b]).0@ == inst_name(#[trigger] cur[j]) by {
                    if j < i {
                        assert(cur[j] == pre[j]);
                        let b = choose|b: int| 0 <= b < entries_before.len() && (#[trigger] entries_before[b]).0@ == inst_name(pre[j]);
                        assert(gate_counts@[b].0@ == entries_before[b].0@);
                    } else {
                        assert(gate_counts@[a as int].0@ == name@);
                    }
                }
                assert forall|x: int, y: int| 0 <= x < y < gate_counts@.len() implies (#[trigger] gate_counts@[x]).0@ != (#[trigger] gate_counts@[y]).0@ by {
                    assert(gate_counts@[x].0@ == entries_before[x].0@);
                    assert(gate_counts@[y].0@ == entries_before[y].0@);
                }
            }
        } else {
            gate_counts.push((name, 1));
            proof {
                assert forall|b: int| 0 <= b < gate_counts@.len() implies (#[trigger] gate_counts@[b]).1 == count_where(
                    cur,
                    named(gate_counts@[b].0@),
                ) by {
                    if b < entries_before.len() {
                        assert(gate_counts@[b] == entries_before[b]);
                    } else {
                        lemma_count_absent(pre, gate_counts@[b].0@, entries_before);
                    }
                }
                assert forall|j: int| 0 <= j < cur.len() implies exists|b: int| 0 <= b < gate_counts@.len() && (#[trigger] gate_counts@[b]).0@ == inst_name(#[trigger] cur[j]) by {
                    if j < i {
                        assert(cur[j] == pre[j]);
                        let b = choose|b: int| 0 <= b < entries_before.len() && (#[trigger] entries_before[b]).0@ == inst_name(pre[j]);
                        assert(gate_counts@[b] == entries_before[b]);
                    } else {
                        assert(gate_counts@[entries_before.len() as int].0@ == name@);
                    }
                }
            }
        }
        i += 1;
    }
    proof {
        assert(insts.take(insts.len() as int) =~= insts);
    }
    Ok(ResourceReport {
        num_qubits: circuit.num_qubits(),
        num_clbits: circuit.num_clbits(),
        op_count: circuit.len(),
        one_qubit_count: one,
        two_qubit_count: multi,
        measure_count: measures,
        reset_count: resets,
        gate_counts,
        depth,
        max_parallel_width: width,
    })
}

/// A count never exceeds the length counted over.
pub proof fn lemma_count_bound(s: Seq<InstructionModel>, f: spec_fn(InstructionModel) -> bool)
    ensures
        count_where(s, f) <= s.len(),
    decreases s.len(),
{
    if s.len() > 0 {
        lemma_count_bound(s.drop_last(), f);
    }
}

/// A name with no entry in a tally of `s` has count zero in `s`.
proof fn lemma_count_absent(s: Seq<InstructionModel>, name: Seq<char>, entries: Seq<(String, usize)>)
    requires
        tallies(entries, s),
        forall|b: int| 0 <= b < entries.len() ==> (#[trigger] entries[b]).0@ != name,
    ensures
        count_where(s, named(name)) == 0,
    decreases s.len(),
{
    if s.len() > 0 {
        let pre = s.drop_last();
        assert forall|i: int| 0 <= i < s.len() implies inst_name(#[trigger] s[i]) != name by {
            let b = choose|b: int| 0 <= b < entries.len() && (#[trigger] entries[b]).0@ == inst_name(s[i]);
        }
        lemma_count_none(s, name);
    }
}

/// Nothing named `name` means a zero count.
proof fn lemma_count_none(s: Seq<InstructionModel>, name: Seq<char>)
    requires
        forall|i: int| 0 <= i < s.len() ==> inst_name(#[trigger] s[i]) != name,
    ensures
        count_where(s, named(name)) == 0,
    decreases s.len(),
{
    if s.len() > 0 {
        let pre = s.drop_last();
        assert forall|i: int| 0 <= i < pre.len() implies inst_name(#[trigger] pre[i]) != name by {
            assert(pre[i] == s[i]);
        }
        lemma_count_none(pre, name);
        assert(s[s.len() - 1] == s.last());
    }
}

fn gate_mnemonic_of(kind: &GateKind) -> (r: String)
    ensures
        r@ == gate_mnemonic(kind@),
{
    kind.mnemonic()
}

} // verus!
