use oqci::analysis::report::{analyze, ResourceReport};
use oqci::ir::qc::{CircuitBuilder, Instruction, Circuit};
use oqci::ir::types::{Angle, ClbitId, GateKind, Param, QubitId};
use oqci::pass::rotation_merge::{plan_merges, rewrite, Merge};
use oqci::pass::schedule::Schedule;
use oqci::pass::PassOutput;

fn concrete(x: f64) -> Param {
    Param::concrete(Angle::from_bits(x.to_bits()))
}

fn schedule(build: impl FnOnce(&mut CircuitBuilder)) -> PassOutput {
    let mut b = CircuitBuilder::new("c");
    build(&mut b);
    Schedule.run(&b.build().unwrap()).unwrap()
}

#[test]
fn the_circuit_is_never_modified() {
    let mut b = CircuitBuilder::new("c");
    let q0 = b.alloc_qubit();
    let q1 = b.alloc_qubit();
    b.h(q0).cx(q0, q1).x(q1);
    let circuit = b.build().unwrap();

    let out = Schedule.run(&circuit).unwrap();
    assert!(!out.changed);
    assert_eq!(out.circuit, circuit, "analysis passes rewrite nothing");
}

#[test]
fn reports_depth_and_width_for_parallel_gates() {
    let out = schedule(|b| {
        let q = b.alloc_qubits(3);
        b.h(q[0]).h(q[1]).h(q[2]);
    });
    assert_eq!(out.notes, vec!["depth 1, 3 operation(s), max parallel width 3"]);
}

#[test]
fn reports_depth_for_a_dependency_chain() {
    let out = schedule(|b| {
        let q0 = b.alloc_qubit();
        b.x(q0).y(q0).z(q0);
    });
    assert_eq!(out.notes, vec!["depth 3, 3 operation(s), max parallel width 1"]);
}

#[test]
fn an_empty_circuit_reports_zero_depth() {
    let out = schedule(|_| {});
    assert_eq!(out.notes, vec!["depth 0, 0 operation(s), max parallel width 0"]);
}

#[test]
fn a_measurement_feeds_the_layer_after_it() {
    // h q0 | cx q0,q1 | measure q1 -> c0, with an independent x q2 in layer 0.
    let out = schedule(|b| {
        let q = b.alloc_qubits(3);
        let c = b.alloc_clbit();
        b.h(q[0]).x(q[2]).cx(q[0], q[1]).measure(q[1], c);
    });
    assert_eq!(out.notes, vec!["depth 3, 4 operation(s), max parallel width 2"]);
}

#[test]
fn empty_circuit_reports_zeroes() {
    let report = analyze(&CircuitBuilder::new("empty").build().unwrap()).unwrap();
    assert_eq!(report, ResourceReport::default());
}

#[test]
fn counts_split_one_and_multi_qubit_gates() {
    let mut b = CircuitBuilder::new("mixed");
    let q = b.alloc_qubits(3);
    b.h(q[0]).cx(q[0], q[1]).ccx(q[0], q[1], q[2]).x(q[2]);

    let report = analyze(&b.build().unwrap()).unwrap();
    assert_eq!(report.op_count, 4);
    assert_eq!(report.one_qubit_count, 2);
    assert_eq!(report.two_qubit_count, 2, "ccx counts as multi-qubit");
}

#[test]
fn measure_and_reset_are_counted_separately_from_gates() {
    let mut b = CircuitBuilder::new("nonunitary");
    let q0 = b.alloc_qubit();
    let c0 = b.alloc_clbit();
    b.h(q0).measure(q0, c0).reset(q0);

    let report = analyze(&b.build().unwrap()).unwrap();
    assert_eq!(report.measure_count, 1);
    assert_eq!(report.reset_count, 1);
    assert_eq!(report.one_qubit_count, 1, "only the H is a gate");
    assert_eq!(report.gate_count("measure"), 1);
    assert_eq!(report.gate_count("reset"), 1);
    assert_eq!(report.gate_count("h"), 1);
}

#[test]
fn gate_counts_are_keyed_by_mnemonic() {
    let mut b = CircuitBuilder::new("repeat");
    let q0 = b.alloc_qubit();
    b.x(q0).x(q0).h(q0);

    let report = analyze(&b.build().unwrap()).unwrap();
    assert_eq!(report.gate_count("x"), 2);
    assert_eq!(report.gate_count("h"), 1);
    assert_eq!(report.gate_counts, vec![("x".to_string(), 2), ("h".to_string(), 1)]);
    assert_eq!(report.gate_count("cx"), 0);
}

#[test]
fn symbolic_parameters_do_not_obstruct_analysis() {
    let mut b = CircuitBuilder::new("ansatz");
    let q0 = b.alloc_qubit();
    b.rz(Param::symbol("theta"), q0);

    let report = analyze(&b.build().unwrap()).unwrap();
    assert_eq!(report.gate_count("rz"), 1);
    assert_eq!(report.depth, 1);
}

#[test]
fn depth_and_width_come_from_the_dag() {
    let mut b = CircuitBuilder::new("wide");
    let q = b.alloc_qubits(4);
    b.h(q[0]).h(q[1]).h(q[2]).h(q[3]);

    let report = analyze(&b.build().unwrap()).unwrap();
    assert_eq!(report.depth, 1);
    assert_eq!(report.max_parallel_width, 4);
}

fn rotations(build: impl FnOnce(&mut CircuitBuilder)) -> Circuit {
    let mut b = CircuitBuilder::new("c");
    b.alloc_qubits(3);
    b.alloc_clbits(1);
    build(&mut b);
    b.build().unwrap()
}

#[test]
fn same_axis_rotations_are_planned_for_merging() {
    let c = rotations(|b| {
        b.rz(concrete(0.25), QubitId(0)).rz(concrete(0.5), QubitId(0));
    });
    assert_eq!(plan_merges(&c).unwrap(), vec![(0, 1)]);
}

#[test]
fn different_axes_and_symbols_are_not_planned() {
    let c = rotations(|b| {
        b.rz(concrete(0.25), QubitId(0)).rx(concrete(0.5), QubitId(0));
    });
    assert!(plan_merges(&c).unwrap().is_empty());
    let c = rotations(|b| {
        b.rz(Param::symbol("theta"), QubitId(0)).rz(Param::symbol("phi"), QubitId(0));
    });
    assert!(plan_merges(&c).unwrap().is_empty());
    let c = rotations(|b| {
        b.rz(Param::symbol("theta"), QubitId(0)).rz(concrete(0.5), QubitId(0));
    });
    assert!(plan_merges(&c).unwrap().is_empty());
}

#[test]
fn merge_planning_sees_through_other_wires_but_not_barriers() {
    let c = rotations(|b| {
        b.rz(concrete(0.25), QubitId(0)).h(QubitId(1)).rz(concrete(0.5), QubitId(0));
    });
    assert_eq!(plan_merges(&c).unwrap(), vec![(0, 2)]);
    let c = rotations(|b| {
        b.rz(concrete(0.25), QubitId(0)).measure(QubitId(0), ClbitId(0)).rz(concrete(0.5), QubitId(0));
    });
    assert!(plan_merges(&c).unwrap().is_empty());
    let c = rotations(|b| {
        b.rz(concrete(0.25), QubitId(0)).rz(concrete(0.5), QubitId(1));
    });
    assert!(plan_merges(&c).unwrap().is_empty());
}

#[test]
fn a_run_of_three_plans_its_first_pair() {
    let c = rotations(|b| {
        b.rz(concrete(0.25), QubitId(0)).rz(concrete(0.25), QubitId(0)).rz(concrete(0.5), QubitId(0));
    });
    assert_eq!(plan_merges(&c).unwrap(), vec![(0, 1)]);
}

#[test]
fn u_and_opaque_gates_are_not_planned() {
    let u = GateKind::U { theta: concrete(0.1), phi: concrete(0.2), lambda: concrete(0.3) };
    let c = rotations(|b| {
        b.gate(u.clone(), vec![QubitId(0)]).gate(u.clone(), vec![QubitId(0)]);
    });
    assert!(plan_merges(&c).unwrap().is_empty());
    let opaque = GateKind::Opaque { name: "mystery".into(), params: vec![concrete(0.5)] };
    let c = rotations(|b| {
        b.gate(opaque.clone(), vec![QubitId(0)]).gate(opaque.clone(), vec![QubitId(0)]);
    });
    assert!(plan_merges(&c).unwrap().is_empty());
}

#[test]
fn rewrite_replaces_the_first_and_drops_the_second() {
    let c = rotations(|b| {
        b.rz(concrete(0.25), QubitId(0)).h(QubitId(1)).rz(concrete(0.5), QubitId(0));
    });
    let merges = vec![Merge { first: 0, second: 2, combined: GateKind::Rz(concrete(0.75)) }];
    let out = rewrite(&c, &merges);
    assert_eq!(
        out,
        vec![
            Instruction::Gate { kind: GateKind::Rz(concrete(0.75)), qubits: vec![QubitId(0)] },
            Instruction::Gate { kind: GateKind::H, qubits: vec![QubitId(1)] },
        ]
    );
}
