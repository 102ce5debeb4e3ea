//! QC-IR to QCO-IR.
//!
//! The conversion threads every wire linearly through the operations that
//! touch it, in program order. An edge is a [`DepKind::Control`] dependency
//! exactly when it leaves a measurement or reset on a qubit wire: the
//! collapse imposes an ordering, not a value flow. Everything else is
//! [`DepKind::Data`].
use vstd::prelude::*;

use crate::ir::error::IrError;
use crate::ir::qc::{inst_qubits, inst_well_formed, insts_model, Circuit, Instruction, InstructionModel};
use crate::ir::qco::{
    edge_forward, io_node, io_nodes, linear_ops, qco_wf, wire_at, wire_slot, wire_total, wire_valid, DepKind,
    Dependency, NodeModel, NodeRef, QcoCircuit, QcoModel, Wire,
};
use crate::ir::types::{ClbitId, QubitId};

verus! {

/// Whether an instruction touches a wire: one of its qubits, or the bit a
/// measurement writes.
pub open spec fn touches(inst: InstructionModel, w: Wire) -> bool {
    match w {
        Wire::Qubit(q) => inst_qubits(inst).contains(q),
        Wire::Clbit(c) => inst matches InstructionModel::Measure { target, .. } && target == c,
    }
}

/// The last instruction before program index `i` that touches `w`.
pub open spec fn last_user(insts: Seq<InstructionModel>, i: nat, w: Wire) -> Option<nat>
    decreases i,
{
    if i == 0 {
        None
    } else if touches(insts[i - 1], w) {
        Some((i - 1) as nat)
    } else {
        last_user(insts, (i - 1) as nat, w)
    }
}

/// The node a wire has reached just before instruction `i`: the operation
/// of its last user, or its input node.
pub open spec fn wire_tail(insts: Seq<InstructionModel>, i: nat, w: Wire, num_qubits: u32, num_clbits: u32) -> nat {
    match last_user(insts, i, w) {
        Some(j) => 2 * wire_total(num_qubits, num_clbits) + j,
        None => 2 * wire_slot(w, num_qubits),
    }
}

/// The kind of the next dependency on `w` after the first `i`
/// instructions: `Control` right after a measurement or reset of a qubit,
/// `Data` otherwise.
pub open spec fn wire_kind(insts: Seq<InstructionModel>, i: nat, w: Wire) -> DepKind {
    match w {
        Wire::Qubit(_) => match last_user(insts, i, w) {
            Some(j) => if insts[j as int] is Gate {
                DepKind::Data
            } else {
                DepKind::Control
            },
            None => DepKind::Data,
        },
        Wire::Clbit(_) => DepKind::Data,
    }
}

/// The edge that brings wire `w` into the operation of instruction `i`.
pub open spec fn edge_into(insts: Seq<InstructionModel>, i: nat, w: Wire, num_qubits: u32, num_clbits: u32) -> (nat, nat, Dependency) {
    (
        wire_tail(insts, i, w, num_qubits, num_clbits),
        2 * wire_total(num_qubits, num_clbits) + i,
        Dependency { wire: w, kind: wire_kind(insts, i, w) },
    )
}

/// The edges into the operation of instruction `i` along its qubits, in
/// operand order.
pub open spec fn qubit_edges(insts: Seq<InstructionModel>, i: nat, num_qubits: u32, num_clbits: u32) -> Seq<(nat, nat, Dependency)> {
    let qs = inst_qubits(insts[i as int]);
    Seq::new(
        qs.len(),
        |k: int| edge_into(insts, i, Wire::Qubit(qs[k]), num_qubits, num_clbits),
    )
}

/// All edges into the operation of instruction `i`: its qubits in operand
/// order, then the bit a measurement writes.
pub open spec fn inst_edges(insts: Seq<InstructionModel>, i: nat, num_qubits: u32, num_clbits: u32) -> Seq<(nat, nat, Dependency)> {
    match insts[i as int] {
        InstructionModel::Measure { target, .. } => qubit_edges(insts, i, num_qubits, num_clbits).push(
            edge_into(insts, i, Wire::Clbit(target), num_qubits, num_clbits),
        ),
        _ => qubit_edges(insts, i, num_qubits, num_clbits),
    }
}

/// The edges into the operations of the first `n` instructions.
pub open spec fn body_edges(insts: Seq<InstructionModel>, n: nat, num_qubits: u32, num_clbits: u32) -> Seq<(nat, nat, Dependency)>
    decreases n,
{
    if n == 0 {
        Seq::empty()
    } else {
        body_edges(insts, (n - 1) as nat, num_qubits, num_clbits) + inst_edges(
            insts,
            (n - 1) as nat,
            num_qubits,
            num_clbits,
        )
    }
}

/// The edge that closes wire `w` into its output node.
pub open spec fn edge_out(insts: Seq<InstructionModel>, w: Wire, num_qubits: u32, num_clbits: u32) -> (nat, nat, Dependency) {
    let n = insts.len();
    (
        wire_tail(insts, n, w, num_qubits, num_clbits),
        2 * wire_slot(w, num_qubits) + 1,
        Dependency { wire: w, kind: wire_kind(insts, n, w) },
    )
}

/// The edges into the output nodes: qubits, then classical bits.
pub open spec fn final_edges(insts: Seq<InstructionModel>, num_qubits: u32, num_clbits: u32) -> Seq<(nat, nat, Dependency)> {
    Seq::new(
        num_qubits as nat,
        |q: int| edge_out(insts, Wire::Qubit(QubitId(q as u32)), num_qubits, num_clbits),
    ) + Seq::new(
        num_clbits as nat,
        |c: int| edge_out(insts, Wire::Clbit(ClbitId(c as u32)), num_qubits, num_clbits),
    )
}

/// Every edge of the dependency graph of a program, in the order they are
/// added.
pub open spec fn qco_edges(insts: Seq<InstructionModel>, num_qubits: u32, num_clbits: u32) -> Seq<(nat, nat, Dependency)> {
    body_edges(insts, insts.len(), num_qubits, num_clbits) + final_edges(
        insts,
        num_qubits,
        num_clbits,
    )
}

/// Every node of the dependency graph of a program: the input/output nodes,
/// then one operation per instruction.
pub open spec fn qco_nodes(insts: Seq<InstructionModel>, num_qubits: u32, num_clbits: u32) -> Seq<NodeModel> {
    io_nodes(num_qubits, num_clbits) + Seq::new(
        insts.len(),
        |i: int| NodeModel::Op { index: i as nat, instruction: insts[i] },
    )
}

/// Whether the graph of a program fits `petgraph`'s 32-bit indices.
pub open spec fn qco_fits(insts: Seq<InstructionModel>, num_qubits: u32, num_clbits: u32) -> bool {
    &&& 2 * wire_total(num_qubits, num_clbits) + insts.len() <= u32::MAX
    &&& qco_edges(insts, num_qubits, num_clbits).len() <= u32::MAX
}

/// The last user comes before `i` and touches the wire.
pub proof fn lemma_last_user(insts: Seq<InstructionModel>, i: nat, w: Wire)
    ensures
        last_user(insts, i, w) matches Some(j) ==> j < i && touches(insts[j as int], w),
    decreases i,
{
    if i > 0 {
        lemma_last_user(insts, (i - 1) as nat, w);
    }
}

/// The body edges only grow.
pub proof fn lemma_body_edges_grow(insts: Seq<InstructionModel>, i: nat, n: nat, num_qubits: u32, num_clbits: u32)
    requires
        i <= n,
    ensures
        body_edges(insts, i, num_qubits, num_clbits).len() + inst_edges(
            insts,
            i,
            num_qubits,
            num_clbits,
        ).len() <= body_edges(insts, n, num_qubits, num_clbits).len() || i == n,
        body_edges(insts, i, num_qubits, num_clbits).len() <= body_edges(
            insts,
            n,
            num_qubits,
            num_clbits,
        ).len(),
    decreases n - i,
{
    if i < n {
        lemma_body_edges_grow(insts, i, (n - 1) as nat, num_qubits, num_clbits);
    }
}

/// The node list of the first `i` operations.
pub open spec fn nodes_upto(insts: Seq<InstructionModel>, i: nat, num_qubits: u32, num_clbits: u32) -> Seq<NodeModel> {
    io_nodes(num_qubits, num_clbits) + Seq::new(
        i,
        |j: int| NodeModel::Op { index: j as nat, instruction: insts[j] },
    )
}

/// Whether wire slot `s` is one of the first `k` qubits of an operand list.
pub open spec fn slot_among(qs: Seq<QubitId>, k: int, s: nat, num_qubits: u32) -> bool {
    s < num_qubits && qs.take(k).contains(QubitId(s as u32))
}

/// Whether the dependency graph of a circuit fits `petgraph`'s 32-bit node
/// and edge indices, which is what [`qc_to_qco`] and everything built on it
/// ask of a circuit.
pub fn fits_dependency_graph(circuit: &Circuit) -> (r: bool)
    ensures
        r == qco_fits(circuit@.instructions, circuit@.num_qubits, circuit@.num_clbits),
{
    let instrs = circuit.instructions();
    let ghost insts = circuit@.instructions;
    let nq = circuit.num_qubits();
    let nc = circuit.num_clbits();
    let wires: u64 = nq as u64 + nc as u64;
    if instrs.len() as u64 > 0xffff_ffffu64 || 2 * wires + instrs.len() as u64 > 0xffff_ffffu64 {
        return false;
    }
    let mut count: u64 = 0;
    let mut i: usize = 0;
    while i < instrs.len()
        invariant
            i <= instrs@.len(),
            insts_model(instrs@) == insts,
            instrs@.len() == insts.len(),
            insts == circuit@.instructions,
            nq == circuit@.num_qubits,
            nc == circuit@.num_clbits,
            count == body_edges(insts, i as nat, nq, nc).len(),
            count <= 0xffff_ffffu64,
        decreases instrs@.len() - i,
    {
        proof {
            assert(instrs@[i as int]@ == insts[i as int]);
        }
        let here: u64 = match &instrs[i] {
            Instruction::Gate { qubits, .. } => qubits.len() as u64,
            Instruction::Measure { .. } => 2,
            Instruction::Reset { .. } => 1,
        };
        proof {
            assert(here == inst_edges(insts, i as nat, nq, nc).len());
        }
        if here > 0xffff_ffffu64 || count + here > 0xffff_ffffu64 {
            proof {
                lemma_body_edges_grow(insts, i as nat + 1, insts.len(), nq, nc);
            }
            return false;
        }
        count = count + here;
        i += 1;
    }
    count + wires <= 0xffff_ffffu64
}

/// Converts a circuit into its dependency graph. See the [module
/// docs](self).
///
/// Every circuit is valid, so the graph is acyclic by construction and the
/// conversion always succeeds on a circuit whose graph fits `petgraph`'s
/// 32-bit indices.
pub fn qc_to_qco(circuit: &Circuit) -> (r: Result<QcoCircuit, IrError>)
    requires
        qco_fits(circuit@.instructions, circuit@.num_qubits, circuit@.num_clbits),
    ensures
        r is Ok,
        r matches Ok(dag) ==> dag@ == (QcoModel {
            name: circuit@.name,
            num_qubits: circuit@.num_qubits,
            num_clbits: circuit@.num_clbits,
            nodes: qco_nodes(circuit@.instructions, circuit@.num_qubits, circuit@.num_clbits),
            edges: qco_edges(circuit@.instructions, circuit@.num_qubits, circuit@.num_clbits),
        }),
{
    circuit.lemma_valid();
    let nq = circuit.num_qubits();
    let nc = circuit.num_clbits();
    let ghost insts = circuit@.instructions;
    let ghost w = wire_total(nq, nc);
    proof {
        lemma_body_edges_grow(insts, 0, insts.len(), nq, nc);
    }
    let mut dag = QcoCircuit::with_registers(circuit.name(), nq, nc);
    let mut last: Vec<NodeRef> = Vec::new();
    let mut collapse: Vec<bool> = Vec::new();
    let mut q: u32 = 0;
    while q < nq
        invariant
            q <= nq,
            w == wire_total(nq, nc),
            dag@.num_qubits == nq,
            dag@.num_clbits == nc,
            last@.len() == q,
            collapse@.len() == q,
            forall|s: int| 0 <= s < q ==> (#[trigger] last@[s])@ == 2 * s,
            forall|s: int| 0 <= s < q ==> !(#[trigger] collapse@[s]),
        decreases nq - q,
    {
        last.push(dag.input_ref(Wire::Qubit(QubitId(q))));
        collapse.push(false);
        q += 1;
    }
    let mut c: u32 = 0;
    while c < nc
        invariant
            c <= nc,
            w == wire_total(nq, nc),
            dag@.num_qubits == nq,
            dag@.num_clbits == nc,
            last@.len() == nq + c,
            collapse@.len() == nq + c,
            forall|s: int| 0 <= s < nq + c ==> (#[trigger] last@[s])@ == 2 * s,
            forall|s: int| 0 <= s < nq + c ==> !(#[trigger] collapse@[s]),
        decreases nc - c,
    {
        last.push(dag.input_ref(Wire::Clbit(ClbitId(c))));
        collapse.push(false);
        c += 1;
    }
    proof {
        assert(dag@.nodes =~= nodes_upto(insts, 0, nq, nc));
        assert forall|s: int| 0 <= s < w implies (#[trigger] last@[s])@ == wire_tail(
            insts,
            0,
            wire_at(s as nat, nq),
            nq,
            nc,
        ) by {
            if s >= nq {
                assert(wire_slot(wire_at(s as nat, nq), nq) == s);
            }
        }
    }
    let instrs = circuit.instructions();
    let n = instrs.len();
    let mut i: usize = 0;
    while i < n
        invariant
            i <= n,
            n == insts.len(),
            insts_model_eq(instrs@, insts),
            w == wire_total(nq, nc),
            nq == circuit@.num_qubits,
            nc == circuit@.num_clbits,
            insts == circuit@.instructions,
            qco_fits(insts, nq, nc),
            forall|j: int| 0 <= j < n ==> inst_well_formed(#[trigger] insts[j], nq, nc),
            dag@.name == circuit@.name,
            dag@.num_qubits == nq,
            dag@.num_clbits == nc,
            dag@.nodes == nodes_upto(insts, i as nat, nq, nc),
            dag@.edges == body_edges(insts, i as nat, nq, nc),
            last@.len() == w,
            collapse@.len() == w,
            forall|s: int|
                0 <= s < w ==> (#[trigger] last@[s])@ == wire_tail(
                    insts,
                    i as nat,
                    wire_at(s as nat, nq),
                    nq,
                    nc,
                ),
            forall|s: int|
                0 <= s < w ==> #[trigger] collapse@[s] == (wire_kind(
                    insts,
                    i as nat,
                    wire_at(s as nat, nq),
                ) == DepKind::Control),
        decreases n - i,
    {
        let inst = &instrs[i];
        proof {
            assert(inst@ == insts[i as int]);
            lemma_body_edges_grow(insts, i as nat, n as nat, nq, nc);
        }
        let (d, node) = dag.add_op(i, inst.clone());
        dag = d;
        proof {
            assert(dag@.nodes =~= nodes_upto(insts, i as nat + 1, nq, nc));
        }
        let qs = inst.qubits();
        let unitary = inst.is_unitary();
        let ghost qedges = qubit_edges(insts, i as nat, nq, nc);
        let mut k: usize = 0;
        while k < qs.len()
            invariant
                k <= qs@.len(),
                qs@ == inst_qubits(insts[i as int]),
                inst_well_formed(insts[i as int], nq, nc),
                unitary == (insts[i as int] is Gate),
                qedges == qubit_edges(insts, i as nat, nq, nc),
                i < n,
                n == insts.len(),
                w == wire_total(nq, nc),
                nq == circuit@.num_qubits,
                nc == circuit@.num_clbits,
                dag@.num_qubits == nq,
                dag@.num_clbits == nc,
                dag@.nodes == nodes_upto(insts, i as nat + 1, nq, nc),
                dag@.edges == body_edges(insts, i as nat, nq, nc) + qedges.take(k as int),
                body_edges(insts, i as nat, nq, nc).len() + inst_edges(insts, i as nat, nq, nc).len()
                    <= qco_edges(insts, nq, nc).len() <= u32::MAX,
                node@ == 2 * w + i,
                last@.len() == w,
                collapse@.len() == w,
                dag@.name == circuit@.name,
                forall|s: int|
                    0 <= s < w ==> (#[trigger] last@[s])@ == if slot_among(qs@, k as int, s as nat, nq) {
                        (2 * w + i) as nat
                    } else {
                        wire_tail(insts, i as nat, wire_at(s as nat, nq), nq, nc)
                    },
                forall|s: int|
                    0 <= s < w ==> #[trigger] collapse@[s] == if slot_among(qs@, k as int, s as nat, nq) {
                        !unitary
                    } else {
                        wire_kind(insts, i as nat, wire_at(s as nat, nq)) == DepKind::Control
                    },
            decreases qs@.len() - k,
        {
            let qubit = qs[k];
            let wire = Wire::Qubit(qubit);
            let s = qubit.0 as usize;
            proof {
                assert(qubit.0 < nq);
                assert(wire_at(s as nat, nq) == wire);
                assert(!slot_among(qs@, k as int, s as nat, nq)) by {
                    if qs@.take(k as int).contains(QubitId(s as u32)) {
                        let j = choose|j: int| 0 <= j < k && qs@.take(k as int)[j] == QubitId(s as u32);
                        assert(qs@[j] != qs@[k as int]);
                    }
                }
                lemma_last_user(insts, i as nat, wire);
                assert(qedges[k as int] == edge_into(insts, i as nat, wire, nq, nc));
            }
            let prev = last[s];
            let kind = if collapse[s] {
                DepKind::Control
            } else {
                DepKind::Data
            };
            dag.add_dependency(prev, node, wire, kind);
            last.set(s, node);
            collapse.set(s, !unitary);
            proof {
                assert(qedges.take(k as int + 1) =~= qedges.take(k as int).push(qedges[k as int]));
                assert(qs@.take(k as int + 1) =~= qs@.take(k as int).push(qubit));
                assert forall|t: int| 0 <= t < w && t != s implies #[trigger] slot_among(
                    qs@,
                    k as int + 1,
                    t as nat,
                    nq,
                ) == slot_among(qs@, k as int, t as nat, nq) by {
                    if t < nq {
                        assert(QubitId(t as u32) != qubit);
                    }
                }
                assert(slot_among(qs@, k as int + 1, s as nat, nq)) by {
                    assert(qs@.take(k as int + 1)[k as int] == QubitId(s as u32));
                }
                assert forall|t: int| 0 <= t < w implies (#[trigger] last@[t])@ == if slot_among(
                    qs@,
                    k as int + 1,
                    t as nat,
                    nq,
                ) {
                    (2 * w + i) as nat
                } else {
                    wire_tail(insts, i as nat, wire_at(t as nat, nq), nq, nc)
                } by {
                    if t != s {
                        assert(slot_among(qs@, k as int + 1, t as nat, nq) == slot_among(qs@, k as int, t as nat, nq));
                    }
                }
                assert forall|t: int| 0 <= t < w implies #[trigger] collapse@[t] == if slot_among(
                    qs@,
                    k as int + 1,
                    t as nat,
                    nq,
                ) {
                    !unitary
                } else {
                    wire_kind(insts, i as nat, wire_at(t as nat, nq)) == DepKind::Control
                } by {
                    if t != s {
                        assert(slot_among(qs@, k as int + 1, t as nat, nq) == slot_among(qs@, k as int, t as nat, nq));
                    }
                }
            }
            k += 1;
        }
        proof {
            assert(qedges.take(qs@.len() as int) =~= qedges);
            assert(qs@.take(qs@.len() as int) =~= qs@);
            assert forall|s: int| 0 <= s < nq implies slot_among(qs@, qs@.len() as int, s as nat, nq)
                == touches(insts[i as int], #[trigger] wire_at(s as nat, nq)) by {}
        }
        let ghost i1 = i as nat + 1;
        if let Some(cb) = inst.clbit() {
            let wire = Wire::Clbit(cb);
            let s = nq as usize + cb.0 as usize;
            proof {
                assert(wire_at(s as nat, nq) == wire);
                assert(!slot_among(qs@, qs@.len() as int, s as nat, nq));
                lemma_last_user(insts, i as nat, wire);
            }
            let prev = last[s];
            dag.add_dependency(prev, node, wire, DepKind::Data);
            last.set(s, node);
            collapse.set(s, false);
            proof {
                assert(dag@.edges =~= body_edges(insts, i1, nq, nc));
                assert forall|t: int| 0 <= t < w implies (#[trigger] last@[t])@ == wire_tail(
                    insts,
                    i1,
                    wire_at(t as nat, nq),
                    nq,
                    nc,
                ) && collapse@[t] == (wire_kind(insts, i1, wire_at(t as nat, nq)) == DepKind::Control) by {
                    if t >= nq && t != s {
                        assert(wire_at(t as nat, nq) != wire);
                    }
                }
            }
        } else {
            proof {
                assert(dag@.edges =~= body_edges(insts, i1, nq, nc));
                assert forall|t: int| 0 <= t < w implies (#[trigger] last@[t])@ == wire_tail(
                    insts,
                    i1,
                    wire_at(t as nat, nq),
                    nq,
                    nc,
                ) && collapse@[t] == (wire_kind(insts, i1, wire_at(t as nat, nq)) == DepKind::Control) by {
                    if t >= nq {
                        assert(!touches(insts[i as int], wire_at(t as nat, nq)));
                    }
                }
            }
        }
        i += 1;
    }
    proof {
        lemma_body_edges_grow(insts, n as nat, n as nat, nq, nc);
    }
    let ghost fin = final_edges(insts, nq, nc);
    let mut q: u32 = 0;
    while q < nq
        invariant
            q <= nq,
            n == insts.len(),
            w == wire_total(nq, nc),
            nq == circuit@.num_qubits,
            nc == circuit@.num_clbits,
            fin == final_edges(insts, nq, nc),
            qco_fits(insts, nq, nc),
            dag@.name == circuit@.name,
            dag@.num_qubits == nq,
            dag@.num_clbits == nc,
            dag@.nodes == nodes_upto(insts, n as nat, nq, nc),
            dag@.edges == body_edges(insts, n as nat, nq, nc) + fin.take(q as int),
            last@.len() == w,
            collapse@.len() == w,
            forall|s: int|
                0 <= s < w ==> (#[trigger] last@[s])@ == wire_tail(
                    insts,
                    n as nat,
                    wire_at(s as nat, nq),
                    nq,
                    nc,
                ),
            forall|s: int|
                0 <= s < w ==> #[trigger] collapse@[s] == (wire_kind(
                    insts,
                    n as nat,
                    wire_at(s as nat, nq),
                ) == DepKind::Control),
        decreases nq - q,
    {
        let wire = Wire::Qubit(QubitId(q));
        let s = q as usize;
        proof {
            assert(wire_at(s as nat, nq) == wire);
            lemma_last_user(insts, n as nat, wire);
            assert(fin[q as int] == edge_out(insts, wire, nq, nc));
        }
        let kind = if collapse[s] {
            DepKind::Control
        } else {
            DepKind::Data
        };
        let out = dag.output_ref(wire);
        dag.add_dependency(last[s], out, wire, kind);
        proof {
            assert(fin.take(q as int + 1) =~= fin.take(q as int).push(fin[q as int]));
        }
        q += 1;
    }
    let mut c: u32 = 0;
    while c < nc
        invariant
            c <= nc,
            n == insts.len(),
            w == wire_total(nq, nc),
            nq == circuit@.num_qubits,
            nc == circuit@.num_clbits,
            fin == final_edges(insts, nq, nc),
            qco_fits(insts, nq, nc),
            dag@.name == circuit@.name,
            dag@.num_qubits == nq,
            dag@.num_clbits == nc,
            dag@.nodes == nodes_upto(insts, n as nat, nq, nc),
            dag@.edges == body_edges(insts, n as nat, nq, nc) + fin.take(nq + c),
            last@.len() == w,
            forall|s: int|
                0 <= s < w ==> (#[trigger] last@[s])@ == wire_tail(
                    insts,
                    n as nat,
                    wire_at(s as nat, nq),
                    nq,
                    nc,
                ),
        decreases nc - c,
    {
        let wire = Wire::Clbit(ClbitId(c));
        let s = nq as usize + c as usize;
        proof {
            assert(wire_at(s as nat, nq) == wire);
            lemma_last_user(insts, n as nat, wire);
            assert(fin[nq + c] == edge_out(insts, wire, nq, nc));
        }
        let out = dag.output_ref(wire);
        dag.add_dependency(last[s], out, wire, DepKind::Data);
        proof {
            assert(fin.take(nq + c + 1) =~= fin.take(nq + c).push(fin[nq + c]));
        }
        c += 1;
    }
    proof {
        assert(fin.take(nq + nc) =~= fin);
        assert(dag@.nodes =~= qco_nodes(insts, nq, nc));
    }
    let _ = dag.topological_ops()?;
    Ok(dag)
}

/// Converting a program to its dependency graph loses nothing: reading the
/// operations back in program order gives back the input instructions.
pub proof fn lemma_round_trip(name: Seq<char>, insts: Seq<InstructionModel>, num_qubits: u32, num_clbits: u32)
    ensures
        linear_ops(
            QcoModel {
                name,
                num_qubits,
                num_clbits,
                nodes: qco_nodes(insts, num_qubits, num_clbits),
                edges: qco_edges(insts, num_qubits, num_clbits),
            },
        ) == insts,
{
    let m = QcoModel {
        name,
        num_qubits,
        num_clbits,
        nodes: qco_nodes(insts, num_qubits, num_clbits),
        edges: qco_edges(insts, num_qubits, num_clbits),
    };
    assert(linear_ops(m) =~= insts);
}

/// Instruction-wise view equality between an exec slice and a model.
pub open spec fn insts_model_eq(v: Seq<crate::ir::qc::Instruction>, m: Seq<InstructionModel>) -> bool {
    &&& v.len() == m.len()
    &&& forall|j: int| 0 <= j < v.len() ==> (#[trigger] v[j])@ == m[j]
}

/// The first instruction at program index `j` or later that touches `w`.
pub open spec fn first_user_from(insts: Seq<InstructionModel>, j: nat, w: Wire) -> Option<nat>
    decreases insts.len() - j,
{
    if j >= insts.len() {
        None
    } else if touches(insts[j as int], w) {
        Some(j)
    } else {
        first_user_from(insts, j + 1, w)
    }
}

/// The next instruction after `i` that touches `w`.
pub open spec fn next_user(insts: Seq<InstructionModel>, i: nat, w: Wire) -> Option<nat> {
    first_user_from(insts, i + 1, w)
}

/// The node that follows instruction `i` on wire `w`: the operation of the
/// next user, or the wire's output.
pub open spec fn next_node(insts: Seq<InstructionModel>, i: nat, w: Wire, num_qubits: u32, num_clbits: u32) -> nat {
    match next_user(insts, i, w) {
        Some(j) => 2 * wire_total(num_qubits, num_clbits) + j,
        None => 2 * wire_slot(w, num_qubits) + 1,
    }
}

/// What `first_user_from` finds: the first toucher, or nobody.
pub proof fn lemma_first_user(insts: Seq<InstructionModel>, s: nat, w: Wire)
    ensures
        first_user_from(insts, s, w) matches Some(j) ==> s <= j < insts.len() && touches(
            insts[j as int],
            w,
        ) && forall|k: int| s <= k < j ==> !touches(#[trigger] insts[k], w),
        first_user_from(insts, s, w) is None ==> forall|k: int|
            s <= k < insts.len() ==> !touches(#[trigger] insts[k], w),
    decreases insts.len() - s,
{
    if s < insts.len() {
        lemma_first_user(insts, s + 1, w);
    }
}

/// Between the last user before `j` and `j` nothing touches the wire.
pub proof fn lemma_last_user_gap(insts: Seq<InstructionModel>, j: nat, w: Wire)
    ensures
        last_user(insts, j, w) matches Some(i) ==> forall|k: int| i < k < j ==> !touches(#[trigger] insts[k], w),
        last_user(insts, j, w) is None ==> forall|k: int| 0 <= k < j ==> !touches(#[trigger] insts[k], w),
    decreases j,
{
    if j > 0 {
        lemma_last_user_gap(insts, (j - 1) as nat, w);
    }
}

/// The last user is determined by the gap before `j`.
pub proof fn lemma_last_user_is(insts: Seq<InstructionModel>, i: nat, j: nat, w: Wire)
    requires
        i < j,
        touches(insts[i as int], w),
        forall|k: int| i < k < j ==> !touches(#[trigger] insts[k], w),
    ensures
        last_user(insts, j, w) == Some(i),
    decreases j,
{
    if j - 1 > i {
        assert(!touches(insts[j - 1], w));
        lemma_last_user_is(insts, i, (j - 1) as nat, w);
    }
}

/// Every body edge was added for some instruction.
pub proof fn lemma_body_edge_origin(insts: Seq<InstructionModel>, n: nat, num_qubits: u32, num_clbits: u32, x: int) -> (r: (nat, int))
    requires
        0 <= x < body_edges(insts, n, num_qubits, num_clbits).len(),
    ensures
        r.0 < n,
        0 <= r.1 < inst_edges(insts, r.0, num_qubits, num_clbits).len(),
        body_edges(insts, n, num_qubits, num_clbits)[x] == inst_edges(insts, r.0, num_qubits, num_clbits)[r.1],
    decreases n,
{
    let prev = body_edges(insts, (n - 1) as nat, num_qubits, num_clbits);
    if x < prev.len() {
        lemma_body_edge_origin(insts, (n - 1) as nat, num_qubits, num_clbits, x)
    } else {
        ((n - 1) as nat, x - prev.len())
    }
}

/// An edge added for instruction `j` brings one of the wires it touches
/// into its operation.
pub proof fn lemma_inst_edge_shape(insts: Seq<InstructionModel>, j: nat, num_qubits: u32, num_clbits: u32, y: int) -> (w: Wire)
    requires
        j < insts.len(),
        0 <= y < inst_edges(insts, j, num_qubits, num_clbits).len(),
    ensures
        touches(insts[j as int], w),
        inst_edges(insts, j, num_qubits, num_clbits)[y] == edge_into(insts, j, w, num_qubits, num_clbits),
{
    let qs = inst_qubits(insts[j as int]);
    if y < qs.len() {
        assert(qs.contains(qs[y]));
        Wire::Qubit(qs[y])
    } else {
        match insts[j as int] {
            InstructionModel::Measure { target, .. } => Wire::Clbit(target),
            _ => Wire::Clbit(ClbitId(0)),
        }
    }
}

/// A wire an instruction of a valid program touches belongs to the
/// registers.
pub proof fn lemma_touched_valid(inst: InstructionModel, w: Wire, num_qubits: u32, num_clbits: u32)
    requires
        inst_well_formed(inst, num_qubits, num_clbits),
        touches(inst, w),
    ensures
        wire_valid(w, num_qubits, num_clbits),
        wire_slot(w, num_qubits) < wire_total(num_qubits, num_clbits),
{
    if let Wire::Qubit(q) = w {
        let k = choose|k: int| 0 <= k < inst_qubits(inst).len() && inst_qubits(inst)[k] == q;
        assert(inst_qubits(inst)[k].0 < num_qubits);
    }
}

/// The next user is the instruction whose own last user is `i`.
proof fn lemma_next_is(insts: Seq<InstructionModel>, i: nat, j: nat, w: Wire)
    requires
        i < j < insts.len(),
        touches(insts[i as int], w),
        touches(insts[j as int], w),
        last_user(insts, j, w) == Some(i),
    ensures
        next_user(insts, i, w) == Some(j),
{
    lemma_last_user_gap(insts, j, w);
    lemma_first_user(insts, i + 1, w);
    if let Some(j2) = next_user(insts, i, w) {
        if j2 < j {
            assert(touches(insts[j2 as int], w));
        } else if j2 > j {
            assert(!touches(insts[j as int], w));
        }
    }
}

/// Every edge that leaves the operation of instruction `i` runs along a
/// wire `i` touches, to the node that follows `i` on that wire.
pub proof fn lemma_edge_from_op(insts: Seq<InstructionModel>, num_qubits: u32, num_clbits: u32, x: int, i: nat)
    requires
        forall|j: int| 0 <= j < insts.len() ==> inst_well_formed(#[trigger] insts[j], num_qubits, num_clbits),
        0 <= x < qco_edges(insts, num_qubits, num_clbits).len(),
        i < insts.len(),
        qco_edges(insts, num_qubits, num_clbits)[x].0 == 2 * wire_total(num_qubits, num_clbits) + i,
    ensures
        touches(insts[i as int], qco_edges(insts, num_qubits, num_clbits)[x].2.wire),
        qco_edges(insts, num_qubits, num_clbits)[x].1 == next_node(
            insts,
            i,
            qco_edges(insts, num_qubits, num_clbits)[x].2.wire,
            num_qubits,
            num_clbits,
        ),
{
    let n = insts.len();
    let wt = wire_total(num_qubits, num_clbits);
    let body = body_edges(insts, n, num_qubits, num_clbits);
    let fin = final_edges(insts, num_qubits, num_clbits);
    let e = qco_edges(insts, num_qubits, num_clbits)[x];
    if x < body.len() {
        assert(e == body[x]);
        let (j, y) = lemma_body_edge_origin(insts, n, num_qubits, num_clbits, x);
        let w = lemma_inst_edge_shape(insts, j, num_qubits, num_clbits, y);
        lemma_touched_valid(insts[j as int], w, num_qubits, num_clbits);
        lemma_last_user(insts, j, w);
        assert(last_user(insts, j, w) == Some(i));
        lemma_next_is(insts, i, j, w);
    } else {
        assert(e == fin[x - body.len()]);
        let z = x - body.len();
        let w = if z < num_qubits {
            Wire::Qubit(QubitId(z as u32))
        } else {
            Wire::Clbit(ClbitId((z - num_qubits) as u32))
        };
        assert(e == edge_out(insts, w, num_qubits, num_clbits));
        assert(wire_slot(w, num_qubits) < wt);
        lemma_last_user(insts, n, w);
        assert(last_user(insts, n, w) == Some(i));
        lemma_last_user_gap(insts, n, w);
        lemma_first_user(insts, i + 1, w);
    }
}

/// Every wire an instruction touches has an edge leaving its operation.
pub proof fn lemma_edge_exists(insts: Seq<InstructionModel>, num_qubits: u32, num_clbits: u32, i: nat, w: Wire) -> (x: int)
    requires
        forall|j: int| 0 <= j < insts.len() ==> inst_well_formed(#[trigger] insts[j], num_qubits, num_clbits),
        i < insts.len(),
        touches(insts[i as int], w),
    ensures
        0 <= x < qco_edges(insts, num_qubits, num_clbits).len(),
        qco_edges(insts, num_qubits, num_clbits)[x].0 == 2 * wire_total(num_qubits, num_clbits) + i,
        qco_edges(insts, num_qubits, num_clbits)[x].2.wire == w,
{
    let n = insts.len();
    let body = body_edges(insts, n, num_qubits, num_clbits);
    lemma_touched_valid(insts[i as int], w, num_qubits, num_clbits);
    lemma_first_user(insts, i + 1, w);
    match next_user(insts, i, w) {
        Some(j) => {
            lemma_last_user_is(insts, i, j, w);
            let y: int = match w {
                Wire::Qubit(q) => {
                    let qs = inst_qubits(insts[j as int]);
                    choose|y: int| 0 <= y < qs.len() && qs[y] == q
                },
                Wire::Clbit(_) => inst_qubits(insts[j as int]).len() as int,
            };
            assert(inst_edges(insts, j, num_qubits, num_clbits)[y] == edge_into(
                insts,
                j,
                w,
                num_qubits,
                num_clbits,
            ));
            lemma_body_prefix(insts, j + 1, n, num_qubits, num_clbits);
            let x = body_edges(insts, j, num_qubits, num_clbits).len() + y;
            assert(body_edges(insts, j + 1, num_qubits, num_clbits)[x] == edge_into(
                insts,
                j,
                w,
                num_qubits,
                num_clbits,
            ));
            assert(body[x] == body_edges(insts, j + 1, num_qubits, num_clbits)[x]);
            assert(qco_edges(insts, num_qubits, num_clbits)[x] == body[x]);
            x
        },
        None => {
            lemma_last_user_is(insts, i, n, w);
            let z = wire_slot(w, num_qubits) as int;
            let x = body.len() + z;
            let fin = final_edges(insts, num_qubits, num_clbits);
            assert(fin[z] == edge_out(insts, w, num_qubits, num_clbits));
            assert(qco_edges(insts, num_qubits, num_clbits)[x] == fin[z]);
            x
        },
    }
}

/// The body edges of a shorter prefix are a prefix of the body edges.
pub proof fn lemma_body_prefix(insts: Seq<InstructionModel>, i: nat, n: nat, num_qubits: u32, num_clbits: u32)
    requires
        i <= n,
    ensures
        body_edges(insts, i, num_qubits, num_clbits).len() <= body_edges(insts, n, num_qubits, num_clbits).len(),
        forall|x: int|
            0 <= x < body_edges(insts, i, num_qubits, num_clbits).len() ==> #[trigger] body_edges(
                insts,
                n,
                num_qubits,
                num_clbits,
            )[x] == body_edges(insts, i, num_qubits, num_clbits)[x],
    decreases n - i,
{
    if i < n {
        lemma_body_prefix(insts, i, (n - 1) as nat, num_qubits, num_clbits);
    }
}

/// The dependency graph of a circuit, as [`qc_to_qco`] builds it.
pub open spec fn circuit_graph(c: crate::ir::qc::CircuitModel) -> QcoModel {
    QcoModel {
        name: c.name,
        num_qubits: c.num_qubits,
        num_clbits: c.num_clbits,
        nodes: qco_nodes(c.instructions, c.num_qubits, c.num_clbits),
        edges: qco_edges(c.instructions, c.num_qubits, c.num_clbits),
    }
}

} // verus!
