//! The adjacency primitive shared by the peephole passes.
//!
//! Every local rewrite (cancellation, rotation merging) asks the same
//! question: *is this operation immediately followed by that one, with
//! nothing in between?* Answered on the instruction list it is wrong in both
//! directions; answered on QCO-IR it is exact, so it is asked once, here.
use vstd::prelude::*;

use crate::ir::convert::{
    inst_edges, lemma_edge_exists, lemma_edge_from_op, lemma_touched_valid, next_node, next_user,
    qc_to_qco, qco_edges, qco_fits, qco_nodes, touches,
};
use crate::ir::error::IrError;
use crate::ir::qc::{inst_qubits, inst_well_formed, same_qubits, Circuit, Instruction, InstructionModel};
use crate::ir::qco::{
    io_node, io_nodes, wire_at, wire_slot, wire_total, wire_valid, NodeKind, NodeModel, QcoNode, Wire,
};
use crate::ir::types::{GateKind, QubitId};

verus! {

/// Stable identity of a dependency-graph node.
#[derive(Debug, Clone, Copy, PartialEq, Eq, Structural, Hash)]
pub enum NodeId {
    /// The input node of a wire.
    Input(Wire),
    /// The operation of the instruction at a program index.
    Op(usize),
    /// The output node of a wire.
    Output(Wire),
}

/// The identity of a node.
pub open spec fn id_of(n: NodeModel) -> NodeId {
    match n {
        NodeModel::Input(w) => NodeId::Input(w),
        NodeModel::Op { index, .. } => NodeId::Op(index as usize),
        NodeModel::Output(w) => NodeId::Output(w),
    }
}

fn node_id(node: &QcoNode) -> (r: NodeId)
    ensures
        r == id_of(node@),
{
    match &node.kind {
        NodeKind::Input(wire) => NodeId::Input(*wire),
        NodeKind::Op { index, .. } => NodeId::Op(*index),
        NodeKind::Output(wire) => NodeId::Output(*wire),
    }
}

/// The identity of the node that follows instruction `i` on wire `w`.
pub open spec fn next_id(insts: Seq<InstructionModel>, i: nat, w: Wire) -> NodeId {
    match next_user(insts, i, w) {
        Some(j) => NodeId::Op(j as usize),
        None => NodeId::Output(w),
    }
}

/// The operation that immediately follows gate `i` on **every** qubit it
/// touches, if there is one: nothing intervenes between the two on any
/// shared wire. Measurements and resets never start a pair.
pub open spec fn unanimous_next(insts: Seq<InstructionModel>, i: nat) -> Option<nat> {
    match insts[i as int] {
        InstructionModel::Gate { qubits, .. } => {
            let first = next_user(insts, i, Wire::Qubit(qubits[0]));
            if qubits.len() > 0 && first is Some && forall|k: int|
                0 <= k < qubits.len() ==> next_user(insts, i, Wire::Qubit(#[trigger] qubits[k]))
                    == first {
                first
            } else {
                None
            }
        },
        _ => None,
    }
}

/// An optional index as an optional natural number.
pub open spec fn opt_nat(o: Option<usize>) -> Option<nat> {
    match o {
        Some(x) => Some(x as nat),
        None => None,
    }
}

/// Whether a row of `(wire, successor)` entries has one for `w`.
pub open spec fn row_has(row: Seq<(Wire, NodeId)>, w: Wire) -> bool {
    exists|x: int| 0 <= x < row.len() && (#[trigger] row[x]).0 == w
}

/// The successor recorded for `w` in a row, if any.
fn lookup(row: &Vec<(Wire, NodeId)>, w: Wire) -> (r: Option<NodeId>)
    ensures
        r matches Some(id) ==> exists|x: int| 0 <= x < row@.len() && #[trigger] row@[x] == (w, id),
        row_has(row@, w) ==> r is Some,
{
    let mut x: usize = 0;
    while x < row.len()
        invariant
            x <= row@.len(),
            forall|y: int| 0 <= y < x ==> (#[trigger] row@[y]).0 != w,
        decreases row@.len() - x,
    {
        if row[x].0 == w {
            proof {
                assert(row@[x as int] == (w, row@[x as int].1));
            }
            return Some(row[x].1);
        }
        x += 1;
    }
    None
}

/// For every instruction, the program index of the operation that
/// immediately follows it on every qubit it touches (see
/// [`unanimous_next`]).
///
/// # Errors
///
/// Propagates [`IrError`] from the QCO-IR conversion, which never fails on
/// a valid circuit.
pub fn unanimous_successors(circuit: &Circuit) -> (r: Result<Vec<Option<usize>>, IrError>)
    requires
        qco_fits(circuit@.instructions, circuit@.num_qubits, circuit@.num_clbits),
    ensures
        r matches Ok(s) && s@.len() == circuit@.instructions.len() && forall|i: int|
            0 <= i < s@.len() ==> opt_nat(#[trigger] s@[i]) == unanimous_next(
                circuit@.instructions,
                i as nat,
            ),
{
    circuit.lemma_valid();
    let ghost insts = circuit@.instructions;
    let ghost nq = circuit@.num_qubits;
    let ghost nc = circuit@.num_clbits;
    let ghost w = wire_total(nq, nc);
    let ghost edges = qco_edges(insts, nq, nc);
    let ghost nodes = qco_nodes(insts, nq, nc);
    let dag = qc_to_qco(circuit)?;
    dag.lemma_wf();
    let deps = dag.dependencies();
    let n = circuit.len();
    let mut table: Vec<Vec<(Wire, NodeId)>> = Vec::new();
    let mut i: usize = 0;
    while i < n
        invariant
            i <= n,
            table@.len() == i,
            forall|j: int| 0 <= j < i ==> (#[trigger] table@[j])@.len() == 0,
        decreases n - i,
    {
        table.push(Vec::new());
        i += 1;
    }
    let mut e: usize = 0;
    while e < deps.len()
        invariant
            n == insts.len(),
            insts == circuit@.instructions,
            w == wire_total(nq, nc),
            nq == circuit@.num_qubits,
            nc == circuit@.num_clbits,
            edges == qco_edges(insts, nq, nc),
            nodes == qco_nodes(insts, nq, nc),
            forall|j: int| 0 <= j < insts.len() ==> inst_well_formed(#[trigger] insts[j], nq, nc),
            deps@.len() == edges.len(),
            forall|f: int|
                0 <= f < deps@.len() ==> {
                    &&& (#[trigger] deps@[f]).0@ == nodes[edges[f].0 as int]
                    &&& deps@[f].1@ == nodes[edges[f].1 as int]
                    &&& deps@[f].2 == edges[f].2
                },
            forall|f: int|
                0 <= f < edges.len() ==> (#[trigger] edges[f]).0 < nodes.len() && edges[f].1
                    < nodes.len(),
            e <= deps@.len(),
            table@.len() == n,
            forall|j: int, x: int|
                0 <= j < n && 0 <= x < table@[j]@.len() ==> (#[trigger] table@[j]@[x]).1 == next_id(
                    insts,
                    j as nat,
                    table@[j]@[x].0,
                ),
            forall|f: int|
                0 <= f < e && (#[trigger] edges[f]).0 >= 2 * w ==> row_has(
                    table@[edges[f].0 - 2 * w]@,
                    edges[f].2.wire,
                ),
        decreases deps@.len() - e,
    {
        let (from, to, dep) = deps[e];
        let from_id = node_id(from);
        if let NodeId::Op(op) = from_id {
            let to_id = node_id(to);
            proof {
                let a = edges[e as int].0;
                if a < 2 * w {
                    assert(nodes[a as int] == io_nodes(nq, nc)[a as int]);
                    assert(nodes[a as int] == io_node(a, nq));
                } else {
                    assert(nodes[a as int] == NodeModel::Op { index: (a - 2 * w) as nat, instruction: insts[a - 2 * w] });
                }
                assert(a == 2 * w + op);
                assert(op < n);
                lemma_edge_from_op(insts, nq, nc, e as int, op as nat);
                let wire = dep.wire;
                lemma_touched_valid(insts[op as int], wire, nq, nc);
                let b = edges[e as int].1;
                assert(b == next_node(insts, op as nat, wire, nq, nc));
                match next_user(insts, op as nat, wire) {
                    Some(j) => {
                        crate::ir::convert::lemma_first_user(insts, op as nat + 1, wire);
                        assert(nodes[b as int] == NodeModel::Op { index: j, instruction: insts[j as int] });
                    },
                    None => {
                        let sl = wire_slot(wire, nq);
                        assert(nodes[b as int] == io_nodes(nq, nc)[b as int]);
                        assert(wire_at(sl, nq) == wire);
                        assert((2 * sl + 1) / 2 == sl);
                        assert(nodes[b as int] == io_node(b, nq));
                    },
                }
                assert(to_id == next_id(insts, op as nat, wire));
            }
            let ghost row_before = table@[op as int]@;
            let mut row = Vec::new();
            std::mem::swap(&mut row, &mut table[op]);
            row.push((dep.wire, to_id));
            std::mem::swap(&mut row, &mut table[op]);
            proof {
                assert(table@[op as int]@ == row_before.push((dep.wire, to_id)));
                assert(row_has(table@[op as int]@, dep.wire)) by {
                    assert(table@[op as int]@[row_before.len() as int].0 == dep.wire);
                }
                assert forall|f: int|
                    0 <= f < e + 1 && (#[trigger] edges[f]).0 >= 2 * w implies row_has(
                    table@[edges[f].0 - 2 * w]@,
                    edges[f].2.wire,
                ) by {
                    if f < e && edges[f].0 - 2 * w == op {
                        let x = choose|x: int| 0 <= x < row_before.len() && (#[trigger] row_before[x]).0 == edges[f].2.wire;
                        assert(table@[op as int]@[x] == row_before[x]);
                    }
                }
            }
        } else {
            proof {
                let a = edges[e as int].0;
                if a >= 2 * w {
                    assert(nodes[a as int] == NodeModel::Op { index: (a - 2 * w) as nat, instruction: insts[a - 2 * w] });
                }
            }
        }
        e += 1;
    }
    let instrs = circuit.instructions();
    let mut successors: Vec<Option<usize>> = Vec::new();
    let mut index: usize = 0;
    while index < n
        invariant
            n == insts.len(),
            insts == circuit@.instructions,
            crate::ir::qc::insts_model(instrs@) == insts,
            instrs@.len() == n,
            w == wire_total(nq, nc),
            nq == circuit@.num_qubits,
            nc == circuit@.num_clbits,
            edges == qco_edges(insts, nq, nc),
            forall|j: int| 0 <= j < insts.len() ==> inst_well_formed(#[trigger] insts[j], nq, nc),
            table@.len() == n,
            forall|j: int, x: int|
                0 <= j < n && 0 <= x < table@[j]@.len() ==> (#[trigger] table@[j]@[x]).1 == next_id(
                    insts,
                    j as nat,
                    table@[j]@[x].0,
                ),
            forall|f: int|
                0 <= f < edges.len() && (#[trigger] edges[f]).0 >= 2 * w ==> row_has(
                    table@[edges[f].0 - 2 * w]@,
                    edges[f].2.wire,
                ),
            index <= n,
            successors@.len() == index,
            forall|j: int| 0 <= j < index ==> opt_nat(#[trigger] successors@[j]) == unanimous_next(insts, j as nat),
        decreases n - index,
    {
        proof {
            assert(instrs@[index as int]@ == insts[index as int]);
        }
        let found = match &instrs[index] {
            Instruction::Gate { qubits, .. } => {
                let ghost qs = qubits@;
                let mut candidate: Option<usize> = None;
                let mut unanimous = true;
                let mut k: usize = 0;
                while k < qubits.len()
                    invariant
                        qs == qubits@,
                        qs == inst_qubits(insts[index as int]),
                        insts[index as int] is Gate,
                        index < n,
                        n == insts.len(),
                        w == wire_total(nq, nc),
                        edges == qco_edges(insts, nq, nc),
                        forall|j: int| 0 <= j < insts.len() ==> inst_well_formed(#[trigger] insts[j], nq, nc),
                        table@.len() == n,
                        forall|j: int, x: int|
                            0 <= j < n && 0 <= x < table@[j]@.len() ==> (#[trigger] table@[j]@[x]).1
                                == next_id(insts, j as nat, table@[j]@[x].0),
                        forall|f: int|
                            0 <= f < edges.len() && (#[trigger] edges[f]).0 >= 2 * w ==> row_has(
                                table@[edges[f].0 - 2 * w]@,
                                edges[f].2.wire,
                            ),
                        k <= qs.len(),
                        !unanimous ==> unanimous_next(insts, index as nat) is None,
                        k == 0 ==> candidate is None,
                        k > 0 ==> candidate is Some && next_user(insts, index as nat, Wire::Qubit(qs[0]))
                            == Some(candidate->0 as nat),
                        forall|y: int|
                            0 <= y < k ==> next_user(insts, index as nat, Wire::Qubit(#[trigger] qs[y]))
                                == Some(candidate->0 as nat),
                    ensures
                        unanimous ==> k == qs.len() && (k == 0 ==> candidate is None) && (k > 0
                            ==> candidate is Some && next_user(insts, index as nat, Wire::Qubit(qs[0]))
                            == Some(candidate->0 as nat)) && forall|y: int|
                            0 <= y < qs.len() ==> next_user(
                                insts,
                                index as nat,
                                Wire::Qubit(#[trigger] qs[y]),
                            ) == Some(candidate->0 as nat),
                        !unanimous ==> unanimous_next(insts, index as nat) is None,
                    decreases qs.len() - k,
                {
                    let wire = Wire::Qubit(qubits[k]);
                    proof {
                        assert(qs.contains(qs[k as int]));
                        assert(touches(insts[index as int], wire));
                        let f = lemma_edge_exists(insts, nq, nc, index as nat, wire);
                        assert(row_has(table@[index as int]@, wire));
                    }
                    let next = lookup(&table[index], wire);
                    proof {
                        crate::ir::convert::lemma_first_user(insts, index as nat + 1, wire);
                        if let Some(id) = next {
                            let x = choose|x: int| 0 <= x < table@[index as int]@.len() && #[trigger] table@[index as int]@[x] == (wire, id);
                            assert(id == next_id(insts, index as nat, wire));
                            if let NodeId::Op(j) = id {
                                assert(next_user(insts, index as nat, wire) == Some(j as nat));
                            }
                        }
                    }
                    let ok = match next {
                        Some(NodeId::Op(j)) => match candidate {
                            None => true,
                            Some(c) => c == j,
                        },
                        _ => false,
                    };
                    if !ok {
                        unanimous = false;
                        proof {
                            let first = next_user(insts, index as nat, Wire::Qubit(qs[0]));
                            if first is Some && forall|y: int|
                                0 <= y < qs.len() ==> next_user(insts, index as nat, Wire::Qubit(#[trigger] qs[y])) == first {
                                assert(next_user(insts, index as nat, Wire::Qubit(qs[k as int])) == first);
                                assert(false);
                            }
                        }
                        break;
                    }
                    if let Some(NodeId::Op(j)) = next {
                        candidate = Some(j);
                    }
                    k += 1;
                }
                if unanimous {
                    candidate
                } else {
                    None
                }
            },
            _ => None,
        };
        successors.push(found);
        index += 1;
    }
    Ok(successors)
}

/// The two gate kinds and the operand list of a candidate pair, when both
/// instructions exist, are gates, and act on the **identical operand list,
/// in order**.
///
/// Operand order matters: `Cx q0,q1` and `Cx q1,q0` act on the same wires
/// but exchange control and target, so they are not a pair.
pub fn matched_pair(circuit: &Circuit, first: usize, second: usize) -> (r: Option<
    (&GateKind, &GateKind, &Vec<QubitId>),
>)
    ensures
        r is Some <==> first < circuit@.instructions.len() && second < circuit@.instructions.len()
            && circuit@.instructions[first as int] is Gate && circuit@.instructions[second as int] is Gate
            && inst_qubits(circuit@.instructions[first as int]) == inst_qubits(
            circuit@.instructions[second as int],
        ),
        r matches Some((a, b, qs)) ==> circuit@.instructions[first as int] == (InstructionModel::Gate {
            kind: a@,
            qubits: qs@,
        }) && circuit@.instructions[second as int] is Gate && circuit@.instructions[second as int]->kind
            == b@,
{
    let instrs = circuit.instructions();
    if first >= instrs.len() || second >= instrs.len() {
        return None;
    }
    proof {
        assert(instrs@[first as int]@ == circuit@.instructions[first as int]);
        assert(instrs@[second as int]@ == circuit@.instructions[second as int]);
    }
    match (&instrs[first], &instrs[second]) {
        (
            Instruction::Gate { kind: a, qubits: a_qubits },
            Instruction::Gate { kind: b, qubits: b_qubits },
        ) => {
            if same_qubits(a_qubits, b_qubits) {
                Some((a, b, a_qubits))
            } else {
                None
            }
        },
        _ => None,
    }
}

} // verus!
