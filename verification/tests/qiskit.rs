use oqci::frontend::error::FrontendError;
use oqci::frontend::qiskit::{translate, QiskitCircuitIr, QiskitInstruction, QiskitParam};
use oqci::ir::error::IrError;
use oqci::ir::qc::Instruction;
use oqci::ir::types::{Angle, ClbitId, GateKind, Param, QubitId};

fn circuit_ir(num_qubits: u32, num_clbits: u32, instructions: Vec<QiskitInstruction>) -> QiskitCircuitIr {
    QiskitCircuitIr { name: "test".to_string(), num_qubits, num_clbits, instructions }
}

fn measure(qubits: Vec<u32>, clbits: Vec<u32>) -> QiskitInstruction {
    QiskitInstruction { name: "measure".to_string(), params: vec![], qubits, clbits }
}

fn angle(x: f64) -> Angle {
    Angle::from_bits(x.to_bits())
}

#[test]
fn empty_circuit_translates() {
    let c = translate(&circuit_ir(0, 0, vec![])).unwrap();
    assert!(c.is_empty());
    assert_eq!(c.num_qubits(), 0);
}

#[test]
fn bell_translates_in_order() {
    let c = translate(&circuit_ir(
        2,
        0,
        vec![
            QiskitInstruction::gate("h", vec![], vec![0]),
            QiskitInstruction::gate("cx", vec![], vec![0, 1]),
        ],
    ))
    .unwrap();
    assert_eq!(
        c.instructions(),
        [
            Instruction::Gate { kind: GateKind::H, qubits: vec![QubitId(0)] },
            Instruction::Gate { kind: GateKind::Cx, qubits: vec![QubitId(0), QubitId(1)] },
        ]
    );
}

#[test]
fn ghz3_translates() {
    let c = translate(&circuit_ir(
        3,
        0,
        vec![
            QiskitInstruction::gate("h", vec![], vec![0]),
            QiskitInstruction::gate("cx", vec![], vec![0, 1]),
            QiskitInstruction::gate("cx", vec![], vec![1, 2]),
        ],
    ))
    .unwrap();
    assert_eq!(c.len(), 3);
    assert_eq!(c.num_qubits(), 3);
}

#[test]
fn mid_circuit_measurement_preserves_order() {
    let c = translate(&circuit_ir(
        2,
        1,
        vec![
            QiskitInstruction::gate("h", vec![], vec![0]),
            measure(vec![0], vec![0]),
            QiskitInstruction::gate("x", vec![], vec![1]),
        ],
    ))
    .unwrap();
    assert_eq!(c.len(), 3);
    assert!(matches!(c.instructions()[1], Instruction::Measure { .. }));
    assert!(matches!(c.instructions()[2], Instruction::Gate { .. }));
}

#[test]
fn mod_measurement_broadcasts_pairwise() {
    let c = translate(&circuit_ir(2, 2, vec![measure(vec![0, 1], vec![0, 1])])).unwrap();
    assert_eq!(
        c.instructions(),
        [
            Instruction::Measure { qubit: QubitId(0), target: ClbitId(0) },
            Instruction::Measure { qubit: QubitId(1), target: ClbitId(1) },
        ]
    );
}

#[test]
fn reset_translates() {
    let c = translate(&circuit_ir(
        1,
        0,
        vec![QiskitInstruction { name: "reset".to_string(), params: vec![], qubits: vec![0], clbits: vec![] }],
    ))
    .unwrap();
    assert_eq!(c.instructions(), [Instruction::Reset { qubit: QubitId(0) }]);
}

#[test]
fn barriers_are_dropped() {
    let c = translate(&circuit_ir(
        2,
        0,
        vec![
            QiskitInstruction::gate("h", vec![], vec![0]),
            QiskitInstruction::gate("barrier", vec![], vec![0, 1]),
        ],
    ))
    .unwrap();
    assert_eq!(c.len(), 1);
}

#[test]
fn mod_unknown_gate_becomes_opaque() {
    let c = translate(&circuit_ir(2, 0, vec![QiskitInstruction::gate("iswap", vec![], vec![0, 1])])).unwrap();
    assert!(matches!(
        &c.instructions()[0],
        Instruction::Gate { kind: GateKind::Opaque { name, .. }, .. } if name == "iswap"
    ));
}

#[test]
fn bound_rotation_translates() {
    let c = translate(&circuit_ir(
        1,
        0,
        vec![QiskitInstruction::gate("rz", vec![QiskitParam::Concrete(angle(0.5))], vec![0])],
    ))
    .unwrap();
    assert_eq!(
        c.instructions()[0],
        Instruction::Gate { kind: GateKind::Rz(Param::concrete(angle(0.5))), qubits: vec![QubitId(0)] }
    );
}

#[test]
fn unbound_parameter_becomes_a_symbol() {
    let c = translate(&circuit_ir(
        1,
        0,
        vec![QiskitInstruction::gate("rz", vec![QiskitParam::Symbol("theta".to_string())], vec![0])],
    ))
    .unwrap();
    let symbols: Vec<String> = match &c.instructions()[0] {
        Instruction::Gate { kind, .. } => {
            kind.params().iter().filter_map(|p| p.as_symbol().map(|s| s.to_string())).collect()
        }
        _ => vec![],
    };
    assert_eq!(symbols, vec!["theta".to_string()]);
}

#[test]
fn compound_parameter_expression_is_rejected() {
    let error = translate(&circuit_ir(
        1,
        0,
        vec![QiskitInstruction::gate("rz", vec![QiskitParam::Expression("2*theta".to_string())], vec![0])],
    ))
    .unwrap_err();
    assert!(matches!(error, FrontendError::Unsupported(msg) if msg.contains("2*theta")));
}

#[test]
fn control_flow_operations_are_rejected() {
    for op in ["if_else", "while_loop", "for_loop", "switch_case"] {
        let error = translate(&circuit_ir(1, 1, vec![QiskitInstruction::gate(op, vec![], vec![0])])).unwrap_err();
        assert!(
            matches!(&error, FrontendError::Unsupported(msg) if msg.contains("static circuits")),
            "{op} produced {error:?}"
        );
    }
}

#[test]
fn out_of_range_qubit_propagates_from_the_ir() {
    let error = translate(&circuit_ir(1, 0, vec![QiskitInstruction::gate("x", vec![], vec![7])])).unwrap_err();
    assert!(matches!(error, FrontendError::Ir(IrError::QubitOutOfRange { .. })));
}

#[test]
fn mismatched_measurement_operands_are_rejected() {
    let error = translate(&circuit_ir(2, 1, vec![measure(vec![0, 1], vec![0])])).unwrap_err();
    assert!(matches!(error, FrontendError::Semantic(_)));
}

#[test]
fn mod_wrong_parameter_count_is_rejected() {
    let error = translate(&circuit_ir(1, 0, vec![QiskitInstruction::gate("rz", vec![], vec![0])])).unwrap_err();
    assert!(matches!(error, FrontendError::ParamArity { .. }));
}

#[test]
fn refusal_messages_name_what_was_refused() {
    let error = translate(&circuit_ir(2, 1, vec![measure(vec![0, 1], vec![0])])).unwrap_err();
    assert_eq!(error, FrontendError::Semantic("measurement pairs 2 qubit(s) with 1 classical bit(s)".to_string()));

    let error = translate(&circuit_ir(1, 0, vec![QiskitInstruction::gate("While_Loop", vec![], vec![0])])).unwrap_err();
    assert_eq!(
        error,
        FrontendError::Unsupported(
            "Qiskit control-flow operation `While_Loop`; OQCI supports static circuits only".to_string()
        )
    );

    let error = translate(&circuit_ir(
        1,
        0,
        vec![QiskitInstruction::gate("RZ", vec![QiskitParam::Expression("a+b".to_string())], vec![0])],
    ))
    .unwrap_err();
    assert_eq!(
        error,
        FrontendError::Unsupported(
            "compound parameter expression `a+b` on gate `RZ`; only a bare unbound Parameter is representable in QC-IR"
                .to_string()
        )
    );

    let error = translate(&circuit_ir(1, 0, vec![QiskitInstruction::gate("RZ", vec![], vec![0])])).unwrap_err();
    assert_eq!(error, FrontendError::ParamArity { gate: "rz".to_string(), expected: 1, found: 0 });
}

#[test]
fn the_first_refusal_wins_and_a_nameless_circuit_is_called_main() {
    let error = translate(&circuit_ir(
        1,
        1,
        vec![
            QiskitInstruction::gate("h", vec![], vec![0]),
            QiskitInstruction::gate("if_else", vec![], vec![0]),
            measure(vec![0], vec![]),
        ],
    ))
    .unwrap_err();
    assert!(matches!(error, FrontendError::Unsupported(_)));

    let c = translate(&QiskitCircuitIr { name: String::new(), num_qubits: 1, num_clbits: 0, instructions: vec![] })
        .unwrap();
    assert_eq!(c.name(), "main");
    let delay = QiskitInstruction::gate("delay", vec![], vec![0]);
    assert_eq!(translate(&circuit_ir(1, 0, vec![delay])).unwrap().len(), 0);
}
