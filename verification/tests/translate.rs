use oqci::frontend::error::FrontendError;
use oqci::frontend::openqasm::ast::{Operand, Pos, Statement};
use oqci::frontend::openqasm::translate::{translate_statements, Translation};
use oqci::ir::qc::Instruction;
use oqci::ir::types::{ClbitId, GateKind, Param, QubitId};

fn at(line: u32, column: u32) -> Pos {
    Pos { line, column }
}

fn whole(name: &str) -> Operand {
    Operand { name: name.to_string(), index: None, pos: at(1, 1) }
}

fn element(name: &str, index: u32) -> Operand {
    Operand { name: name.to_string(), index: Some(index), pos: at(1, 1) }
}

fn qubits(name: &str, size: u32) -> Statement {
    Statement::QubitDecl { name: name.to_string(), size: Some(size), pos: at(1, 1) }
}

fn bits(name: &str, size: u32) -> Statement {
    Statement::BitDecl { name: name.to_string(), size: Some(size), pos: at(2, 1) }
}

fn call(name: &str, operands: Vec<Operand>) -> Statement {
    Statement::GateCall { name: name.to_string(), operands, pos: at(3, 1) }
}

fn semantic(message: &str) -> FrontendError {
    FrontendError::Semantic(message.to_string())
}

#[test]
fn statements_translate_in_order_with_broadcast_and_measurement() {
    let statements = vec![
        qubits("q", 2),
        bits("c", 2),
        call("H", vec![whole("q")]),
        call("cx", vec![element("q", 0), element("q", 1)]),
        Statement::Measure { source: whole("q"), target: whole("c"), pos: at(4, 1) },
        Statement::Reset { target: element("q", 1), pos: at(5, 1) },
    ];
    let params = vec![Vec::new(); statements.len()];
    let circuit = translate_statements(&statements, &params, "demo").unwrap();
    assert_eq!(circuit.name(), "demo");
    assert_eq!(circuit.num_qubits(), 2);
    assert_eq!(circuit.num_clbits(), 2);
    assert_eq!(
        circuit.instructions(),
        &[
            Instruction::Gate { kind: GateKind::H, qubits: vec![QubitId(0)] },
            Instruction::Gate { kind: GateKind::H, qubits: vec![QubitId(1)] },
            Instruction::Gate { kind: GateKind::Cx, qubits: vec![QubitId(0), QubitId(1)] },
            Instruction::Measure { qubit: QubitId(0), target: ClbitId(0) },
            Instruction::Measure { qubit: QubitId(1), target: ClbitId(1) },
            Instruction::Reset { qubit: QubitId(1) },
        ]
    );
}

#[test]
fn a_second_register_is_laid_out_after_the_first() {
    let statements = vec![qubits("a", 2), qubits("b", 3), call("x", vec![element("b", 2)])];
    let params = vec![Vec::new(); statements.len()];
    let circuit = translate_statements(&statements, &params, "main").unwrap();
    assert_eq!(circuit.num_qubits(), 5);
    assert_eq!(circuit.instructions(), &[Instruction::Gate { kind: GateKind::X, qubits: vec![QubitId(4)] }]);
}

#[test]
fn a_register_name_declared_twice_is_refused() {
    let statements = vec![qubits("q", 1), bits("q", 1)];
    let params = vec![Vec::new(); statements.len()];
    assert_eq!(
        translate_statements(&statements, &params, "main").unwrap_err(),
        semantic("register `q` is already declared (line 2, column 1)")
    );
}

#[test]
fn an_input_declared_twice_is_refused() {
    let mut translation = Translation::new("main");
    let decl = Statement::InputDecl { name: "theta".to_string(), pos: at(7, 3) };
    translation.step(&decl, Vec::new()).unwrap();
    assert!(translation.is_input(&"theta".to_string()));
    assert_eq!(
        translation.step(&decl, Vec::new()).unwrap_err(),
        semantic("parameter `theta` is already declared (line 7, column 3)")
    );
}

#[test]
fn a_measurement_over_differing_widths_is_refused() {
    let statements = vec![
        qubits("q", 2),
        bits("c", 3),
        Statement::Measure { source: whole("q"), target: whole("c"), pos: at(4, 2) },
    ];
    let params = vec![Vec::new(); statements.len()];
    assert_eq!(
        translate_statements(&statements, &params, "main").unwrap_err(),
        semantic("measurement broadcasts 2 qubit(s) onto 3 classical bit(s) (line 4, column 2)")
    );
}

#[test]
fn a_gate_given_the_wrong_number_of_angles_is_refused() {
    let statements = vec![qubits("q", 1), call("RZ", vec![element("q", 0)])];
    let params = vec![Vec::new(); statements.len()];
    assert_eq!(
        translate_statements(&statements, &params, "main").unwrap_err(),
        FrontendError::ParamArity { gate: "rz".to_string(), expected: 1, found: 0 }
    );
}

#[test]
fn a_gate_broadcast_over_an_empty_register_applies_nothing() {
    let statements = vec![qubits("z", 0), call("rz", vec![whole("z")])];
    let params = vec![Vec::new(); statements.len()];
    let circuit = translate_statements(&statements, &params, "main").unwrap();
    assert!(circuit.instructions().is_empty());
}

#[test]
fn angles_handed_over_reach_the_gate() {
    let statements = vec![qubits("q", 1), call("rz", vec![element("q", 0)])];
    let params = vec![Vec::new(), vec![Param::symbol("theta")]];
    let circuit = translate_statements(&statements, &params, "main").unwrap();
    assert_eq!(
        circuit.instructions(),
        &[Instruction::Gate { kind: GateKind::Rz(Param::symbol("theta")), qubits: vec![QubitId(0)] }]
    );
}

#[test]
fn a_repeated_operand_is_reported_by_the_circuit_checks() {
    let statements = vec![qubits("q", 2), call("cx", vec![element("q", 0), element("q", 0)])];
    let params = vec![Vec::new(); statements.len()];
    assert!(matches!(
        translate_statements(&statements, &params, "main").unwrap_err(),
        FrontendError::Ir(_)
    ));
}
