use oqci::ir::convert::qc_to_qco;
use oqci::ir::qc::{CircuitBuilder, Instruction};
use oqci::ir::qco::{DepKind, NodeKind, QcoCircuit};
use oqci::ir::types::{Angle, ClbitId, GateKind, Param, QubitId};
use oqci::pass::adjacency::{matched_pair, unanimous_successors};
use oqci::pass::cancellation::GateCancellation;
use oqci::pass::PassOutput;

fn concrete(x: f64) -> Param {
    Param::concrete(Angle::from_bits(x.to_bits()))
}

fn count_edges(dag: &QcoCircuit, want: DepKind) -> usize {
    dag.dependencies().iter().filter(|(_, _, d)| d.kind == want).count()
}

#[test]
fn bell_has_expected_shape() {
    let mut b = CircuitBuilder::new("bell");
    let q0 = b.alloc_qubit();
    let q1 = b.alloc_qubit();
    b.h(q0).cx(q0, q1);
    let circuit = b.build().unwrap();
    let dag = qc_to_qco(&circuit).unwrap();

    assert_eq!(dag.op_count(), 2);
    let ops = dag.topological_ops().unwrap();
    assert_eq!(ops.len(), 2);
    let kinds: Vec<GateKind> = ops
        .iter()
        .filter_map(|(_, i)| match i {
            Instruction::Gate { kind, .. } => Some(kind.clone()),
            _ => None,
        })
        .collect();
    assert_eq!(kinds, vec![GateKind::H, GateKind::Cx]);
}

#[test]
fn measurement_after_gate_is_data_then_gate_after_measure_is_control() {
    let mut b = CircuitBuilder::new("midmeasure");
    let q0 = b.alloc_qubit();
    let c0 = b.alloc_clbit();
    b.x(q0).measure(q0, c0).x(q0);
    let circuit = b.build().unwrap();
    let dag = qc_to_qco(&circuit).unwrap();

    assert_eq!(count_edges(&dag, DepKind::Control), 1);
    assert_eq!(dag.linearize(), circuit.instructions().to_vec());
}

#[test]
fn reset_induces_control_dependency() {
    let mut b = CircuitBuilder::new("reset");
    let q0 = b.alloc_qubit();
    b.x(q0).reset(q0).x(q0);
    let circuit = b.build().unwrap();
    let dag = qc_to_qco(&circuit).unwrap();
    assert!(count_edges(&dag, DepKind::Control) >= 1);
}

#[test]
fn boundary_nodes_exist_for_every_wire() {
    let mut b = CircuitBuilder::new("boundaries");
    let _q = b.alloc_qubits(3);
    let _c = b.alloc_clbits(2);
    let circuit = b.build().unwrap();
    let dag = qc_to_qco(&circuit).unwrap();
    let nodes = dag.nodes();
    let inputs = nodes.iter().filter(|n| matches!(n.kind, NodeKind::Input(_))).count();
    let outputs = nodes.iter().filter(|n| matches!(n.kind, NodeKind::Output(_))).count();
    assert_eq!(inputs, 5);
    assert_eq!(outputs, 5);
}

#[test]
fn empty_circuit_has_no_ops() {
    let circuit = CircuitBuilder::new("empty").build().unwrap();
    let dag = qc_to_qco(&circuit).unwrap();
    assert_eq!(dag.op_count(), 0);
    assert!(dag.topological_ops().unwrap().is_empty());
}

#[test]
fn linear_chain_linearizes_to_program_order() {
    let mut b = CircuitBuilder::new("chain");
    let q0 = b.alloc_qubit();
    b.x(q0).y(q0).z(q0);
    let circuit = b.build().unwrap();
    let dag = qc_to_qco(&circuit).unwrap();

    let lin = dag.linearize();
    assert_eq!(lin.len(), 3);
    assert_eq!(lin, circuit.instructions().to_vec());
}

#[test]
fn independent_qubits_have_no_cross_dependency() {
    let mut b = CircuitBuilder::new("indep");
    let q0 = b.alloc_qubit();
    let q1 = b.alloc_qubit();
    b.h(q0).h(q1);
    let circuit = b.build().unwrap();
    let dag = qc_to_qco(&circuit).unwrap();
    let ops = dag.topological_ops().unwrap();
    assert_eq!(ops.len(), 2);
    assert_eq!(ops[0].0, 0);
    assert_eq!(ops[1].0, 1);
}

#[test]
fn the_graph_keeps_the_circuit_header_and_every_edge() {
    let mut b = CircuitBuilder::new("hdr");
    let q0 = b.alloc_qubit();
    let q1 = b.alloc_qubit();
    let c0 = b.alloc_clbit();
    b.h(q0).cx(q0, q1).measure(q1, c0);
    let circuit = b.build().unwrap();
    let dag = qc_to_qco(&circuit).unwrap();
    assert_eq!(dag.name(), "hdr");
    assert_eq!(dag.num_qubits(), 2);
    assert_eq!(dag.num_clbits(), 1);
    // h: 1 edge in; cx: 2; measure: qubit + bit; then one edge per wire out.
    assert_eq!(dag.dependencies().len(), 1 + 2 + 2 + 3);
    assert_eq!(dag.nodes().len(), 2 * 3 + 3);
    assert_eq!(dag.nodes()[6].as_op().map(|(i, _)| i), Some(0));
    assert!(dag.nodes()[0].as_op().is_none());
}

fn successors(build: impl FnOnce(&mut CircuitBuilder)) -> Vec<Option<usize>> {
    let mut b = CircuitBuilder::new("c");
    b.alloc_qubits(3);
    b.alloc_clbits(1);
    build(&mut b);
    unanimous_successors(&b.build().unwrap()).unwrap()
}

#[test]
fn consecutive_gates_on_one_wire_are_adjacent() {
    let succ = successors(|b| {
        b.h(QubitId(0)).x(QubitId(0));
    });
    assert_eq!(succ[0], Some(1));
}

#[test]
fn a_gate_on_another_wire_does_not_break_adjacency() {
    let succ = successors(|b| {
        b.h(QubitId(0)).h(QubitId(1)).x(QubitId(0));
    });
    assert_eq!(succ[0], Some(2), "index 1 is on an independent wire");
}

#[test]
fn a_shared_wire_makes_the_intervening_gate_the_successor() {
    let succ = successors(|b| {
        b.h(QubitId(0)).cx(QubitId(0), QubitId(1)).x(QubitId(0));
    });
    assert_eq!(succ[0], Some(1), "the cx shares q0");
}

#[test]
fn a_two_qubit_gate_needs_unanimity_across_both_wires() {
    let succ = successors(|b| {
        b.cx(QubitId(0), QubitId(1)).x(QubitId(0)).y(QubitId(1));
    });
    assert_eq!(succ[0], None);
}

#[test]
fn a_two_qubit_gate_pairs_with_an_identical_one() {
    let succ = successors(|b| {
        b.cx(QubitId(0), QubitId(1)).cx(QubitId(0), QubitId(1));
    });
    assert_eq!(succ[0], Some(1));
}

#[test]
fn a_measurement_is_the_successor_and_blocks_the_pair() {
    let succ = successors(|b| {
        b.x(QubitId(0)).measure(QubitId(0), ClbitId(0)).x(QubitId(0));
    });
    assert_eq!(succ[0], Some(1));
    assert_eq!(succ[1], None);
}

#[test]
fn a_trailing_gate_has_no_successor() {
    let succ = successors(|b| {
        b.h(QubitId(0));
    });
    assert_eq!(succ[0], None, "its successor is the output boundary");
}

#[test]
fn matched_pair_requires_identical_operand_order() {
    let mut b = CircuitBuilder::new("c");
    b.alloc_qubits(2);
    b.cx(QubitId(0), QubitId(1)).cx(QubitId(1), QubitId(0));
    let circuit = b.build().unwrap();
    assert!(matched_pair(&circuit, 0, 1).is_none());

    let mut b = CircuitBuilder::new("c");
    b.alloc_qubits(2);
    b.cx(QubitId(0), QubitId(1)).cx(QubitId(0), QubitId(1));
    let circuit = b.build().unwrap();
    assert!(matched_pair(&circuit, 0, 1).is_some());
}

#[test]
fn matched_pair_is_none_out_of_range() {
    let mut b = CircuitBuilder::new("c");
    b.alloc_qubits(1);
    b.x(QubitId(0));
    let circuit = b.build().unwrap();
    assert!(matched_pair(&circuit, 0, 1).is_none());
}

fn run(build: impl FnOnce(&mut CircuitBuilder)) -> PassOutput {
    let mut b = CircuitBuilder::new("c");
    b.alloc_qubits(3);
    b.alloc_clbits(1);
    build(&mut b);
    GateCancellation.run(&b.build().unwrap()).unwrap()
}

#[test]
fn self_inverse_pairs_cancel() {
    for gate in [GateKind::X, GateKind::Y, GateKind::Z, GateKind::H] {
        let out = run(|b| {
            b.gate(gate.clone(), vec![QubitId(0)]).gate(gate.clone(), vec![QubitId(0)]);
        });
        assert!(out.circuit.is_empty(), "{gate:?} should self-cancel");
    }
}

#[test]
fn adjoint_pairs_cancel_in_both_orders() {
    for (a, b) in [
        (GateKind::S, GateKind::Sdg),
        (GateKind::Sdg, GateKind::S),
        (GateKind::T, GateKind::Tdg),
        (GateKind::Tdg, GateKind::T),
    ] {
        let out = run(|c| {
            c.gate(a.clone(), vec![QubitId(0)]).gate(b.clone(), vec![QubitId(0)]);
        });
        assert!(out.circuit.is_empty(), "{a:?};{b:?} should cancel");
    }
}

#[test]
fn two_qubit_gates_cancel_when_operands_match() {
    let out = run(|b| {
        b.cx(QubitId(0), QubitId(1)).cx(QubitId(0), QubitId(1));
    });
    assert!(out.circuit.is_empty());
}

#[test]
fn swapped_control_and_target_do_not_cancel() {
    let out = run(|b| {
        b.cx(QubitId(0), QubitId(1)).cx(QubitId(1), QubitId(0));
    });
    assert!(!out.changed);
    assert_eq!(out.circuit.len(), 2);
}

#[test]
fn cancellation_sees_through_gates_on_other_wires() {
    let out = run(|b| {
        b.h(QubitId(0)).h(QubitId(1)).h(QubitId(0));
    });
    assert_eq!(out.circuit.len(), 1);
    assert_eq!(
        out.circuit.instructions()[0],
        Instruction::Gate { kind: GateKind::H, qubits: vec![QubitId(1)] }
    );
}

#[test]
fn an_intervening_gate_on_a_shared_wire_blocks_cancellation() {
    let out = run(|b| {
        b.h(QubitId(0)).x(QubitId(0)).h(QubitId(0));
    });
    assert!(!out.changed);
    assert_eq!(out.circuit.len(), 3);
}

#[test]
fn a_measurement_blocks_cancellation() {
    let out = run(|b| {
        b.x(QubitId(0)).measure(QubitId(0), ClbitId(0)).x(QubitId(0));
    });
    assert!(!out.changed);
    assert_eq!(out.circuit.len(), 3);
}

#[test]
fn a_reset_blocks_cancellation() {
    let out = run(|b| {
        b.x(QubitId(0)).reset(QubitId(0)).x(QubitId(0));
    });
    assert!(!out.changed);
    assert_eq!(out.circuit.len(), 3);
}

#[test]
fn a_two_qubit_gate_sharing_one_wire_blocks_cancellation() {
    let out = run(|b| {
        b.h(QubitId(0)).cx(QubitId(0), QubitId(1)).h(QubitId(0));
    });
    assert!(!out.changed);
}

#[test]
fn rotations_cancel_only_when_angles_exactly_negate() {
    let out = run(|b| {
        b.rz(concrete(0.5), QubitId(0)).rz(concrete(-0.5), QubitId(0));
    });
    assert!(out.circuit.is_empty());

    let out = run(|b| {
        b.rz(concrete(0.5), QubitId(0)).rz(concrete(0.5), QubitId(0));
    });
    assert!(!out.changed, "same-sign rotations are merged, not cancelled");
}

#[test]
fn symbolic_rotations_never_cancel() {
    let out = run(|b| {
        b.rz(Param::symbol("theta"), QubitId(0)).rz(Param::symbol("theta"), QubitId(0));
    });
    assert!(!out.changed, "OQCI cannot know theta == -theta");
}

#[test]
fn opaque_gates_never_cancel() {
    let opaque = GateKind::Opaque { name: "mystery".into(), params: vec![] };
    let out = run(|b| {
        b.gate(opaque.clone(), vec![QubitId(0)]).gate(opaque.clone(), vec![QubitId(0)]);
    });
    assert!(!out.changed, "an unknown gate has no knowable inverse");
}

#[test]
fn u_gates_never_cancel() {
    let u = GateKind::U { theta: concrete(0.1), phi: concrete(0.2), lambda: concrete(0.3) };
    let inverse = GateKind::U { theta: concrete(-0.1), phi: concrete(-0.3), lambda: concrete(-0.2) };
    let out = run(|b| {
        b.gate(u.clone(), vec![QubitId(0)]).gate(inverse.clone(), vec![QubitId(0)]);
    });
    assert!(!out.changed, "documented as unverified, so not attempted");
}

#[test]
fn nested_pairs_collapse_to_a_fixed_point() {
    let out = run(|b| {
        b.h(QubitId(0)).x(QubitId(0)).x(QubitId(0)).h(QubitId(0));
    });
    assert!(out.circuit.is_empty());
    assert_eq!(out.notes, vec!["cancelled 2 inverse pair(s)"]);
}

#[test]
fn odd_runs_leave_exactly_one_gate() {
    let out = run(|b| {
        b.x(QubitId(0)).x(QubitId(0)).x(QubitId(0));
    });
    assert_eq!(out.circuit.len(), 1);
}

#[test]
fn even_runs_cancel_completely() {
    let out = run(|b| {
        b.x(QubitId(0)).x(QubitId(0)).x(QubitId(0)).x(QubitId(0));
    });
    assert!(out.circuit.is_empty());
}

#[test]
fn register_widths_survive_cancellation() {
    let out = run(|b| {
        b.h(QubitId(0)).h(QubitId(0));
    });
    assert_eq!(out.circuit.num_qubits(), 3);
    assert_eq!(out.circuit.num_clbits(), 1);
}

#[test]
fn negative_zero_rotations_cancel_with_zero() {
    let out = run(|b| {
        b.rx(concrete(0.0), QubitId(0)).rx(concrete(-0.0), QubitId(0));
    });
    assert!(out.circuit.is_empty());
    assert_eq!(out.notes, vec!["cancelled 1 inverse pair(s)"]);
}

#[test]
fn cancelling_twice_changes_nothing_more() {
    let mut b = CircuitBuilder::new("c");
    b.alloc_qubits(2);
    b.h(QubitId(0)).x(QubitId(1)).h(QubitId(0)).cx(QubitId(0), QubitId(1)).gate(GateKind::T, vec![QubitId(1)]);
    let first = GateCancellation.run(&b.build().unwrap()).unwrap();
    assert!(first.changed);
    let second = GateCancellation.run(&first.circuit).unwrap();
    assert!(!second.changed);
    assert!(second.notes.is_empty());
    assert_eq!(second.circuit, first.circuit);
}

#[test]
fn an_ordinary_circuit_fits_the_dependency_graph() {
    let mut b = CircuitBuilder::new("c");
    let q = b.alloc_qubits(3);
    let c = b.alloc_clbits(1);
    b.h(q[0]).cx(q[0], q[1]).measure(q[1], c[0]);
    let circuit = b.build().unwrap();
    assert!(oqci::ir::convert::fits_dependency_graph(&circuit));
}
