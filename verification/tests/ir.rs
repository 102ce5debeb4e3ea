use oqci::ir::error::IrError;
use oqci::ir::qc::{CircuitBuilder, Instruction};
use oqci::ir::types::{Angle, ClbitId, GateKind, Param, QubitId};

fn concrete(x: f64) -> Param {
    Param::concrete(Angle::from_bits(x.to_bits()))
}

#[test]
fn empty_circuit_is_identity() {
    let circuit = CircuitBuilder::new("empty").build().unwrap();
    assert!(circuit.is_empty());
    assert_eq!(circuit.num_qubits(), 0);
    assert_eq!(circuit.len(), 0);
}

#[test]
fn bell_circuit_builds() {
    let mut b = CircuitBuilder::new("bell");
    let q0 = b.alloc_qubit();
    let q1 = b.alloc_qubit();
    b.h(q0).cx(q0, q1);
    let circuit = b.build().unwrap();
    assert_eq!(circuit.num_qubits(), 2);
    assert_eq!(circuit.len(), 2);
}

#[test]
fn control_and_target_accessors() {
    let inst = Instruction::Gate {
        kind: GateKind::Cx,
        qubits: vec![QubitId(0), QubitId(1)],
    };
    assert_eq!(inst.control(), vec![QubitId(0)]);
    assert_eq!(inst.target(), Some(QubitId(1)));
}

#[test]
fn ccx_control_and_target() {
    let inst = Instruction::Gate {
        kind: GateKind::Ccx,
        qubits: vec![QubitId(0), QubitId(1), QubitId(2)],
    };
    assert_eq!(inst.control(), vec![QubitId(0), QubitId(1)]);
    assert_eq!(inst.target(), Some(QubitId(2)));
}

#[test]
fn qubit_out_of_range_is_rejected() {
    let mut b = CircuitBuilder::new("bad");
    let _q0 = b.alloc_qubit();
    b.gate(GateKind::X, vec![QubitId(5)]);
    assert_eq!(
        b.build(),
        Err(IrError::QubitOutOfRange {
            qubit: QubitId(5),
            declared: 1
        })
    );
}

#[test]
fn clbit_out_of_range_is_rejected() {
    let mut b = CircuitBuilder::new("bad");
    let q0 = b.alloc_qubit();
    b.measure(q0, ClbitId(0));
    assert_eq!(
        b.build(),
        Err(IrError::ClbitOutOfRange {
            clbit: ClbitId(0),
            declared: 0
        })
    );
}

#[test]
fn gate_arity_mismatch_is_rejected() {
    let mut b = CircuitBuilder::new("bad");
    let q0 = b.alloc_qubit();
    b.gate(GateKind::Cx, vec![q0]);
    assert_eq!(
        b.build(),
        Err(IrError::GateArityMismatch {
            gate: "cx".into(),
            expected: 2,
            found: 1
        })
    );
}

#[test]
fn duplicate_qubit_is_rejected() {
    let mut b = CircuitBuilder::new("bad");
    let q0 = b.alloc_qubit();
    let _q1 = b.alloc_qubit();
    b.gate(GateKind::Cx, vec![q0, q0]);
    assert_eq!(
        b.build(),
        Err(IrError::DuplicateQubit {
            gate: "cx".into(),
            qubit: QubitId(0)
        })
    );
}

#[test]
fn empty_opaque_name_is_rejected() {
    let mut b = CircuitBuilder::new("bad");
    let q0 = b.alloc_qubit();
    b.gate(
        GateKind::Opaque {
            name: String::new(),
            params: vec![],
        },
        vec![q0],
    );
    assert_eq!(b.build(), Err(IrError::EmptyOpaqueName));
}

#[test]
fn empty_opaque_operands_is_rejected() {
    let mut b = CircuitBuilder::new("bad");
    b.gate(
        GateKind::Opaque {
            name: "custom".into(),
            params: vec![],
        },
        vec![],
    );
    assert_eq!(
        b.build(),
        Err(IrError::EmptyOpaqueOperands {
            gate: "custom".into()
        })
    );
}

#[test]
fn non_finite_angle_is_rejected() {
    let mut b = CircuitBuilder::new("bad");
    let q0 = b.alloc_qubit();
    b.rx(concrete(f64::NAN), q0);
    assert_eq!(
        b.build(),
        Err(IrError::NonFiniteAngle { gate: "rx".into() })
    );
}

#[test]
fn opaque_gate_with_operands_is_accepted() {
    let mut b = CircuitBuilder::new("ok");
    let q0 = b.alloc_qubit();
    let q1 = b.alloc_qubit();
    b.gate(
        GateKind::Opaque {
            name: "iswap".into(),
            params: vec![],
        },
        vec![q0, q1],
    );
    assert!(b.build().is_ok());
}

#[test]
fn concrete_round_trips() {
    let p = concrete(1.5);
    assert!(p.is_concrete());
    assert!(!p.is_symbolic());
    assert_eq!(
        p.as_concrete().map(|a| f64::from_bits(a.to_bits())),
        Some(1.5)
    );
    assert_eq!(p.as_symbol(), None);
}

#[test]
fn symbol_round_trips() {
    let p = Param::symbol("theta");
    assert!(p.is_symbolic());
    assert!(!p.is_concrete());
    assert_eq!(p.as_symbol(), Some("theta"));
    assert_eq!(p.as_concrete(), None);
}

#[test]
fn validity_covers_both_cases() {
    assert!(concrete(0.0).is_valid());
    assert!(!concrete(f64::NAN).is_valid());
    assert!(Param::symbol("x").is_valid());
    assert!(!Param::symbol("").is_valid());
}

#[test]
fn infinite_angles_are_not_finite_and_zeros_are_equal() {
    assert!(!Angle::from_bits(f64::INFINITY.to_bits()).is_finite());
    assert!(Angle::from_bits(1.0f64.to_bits()).is_finite());
    let zero = Angle::from_bits(0.0f64.to_bits());
    let negative_zero = Angle::from_bits((-0.0f64).to_bits());
    assert!(zero.value_eq(negative_zero));
    let nan = Angle::from_bits(f64::NAN.to_bits());
    assert!(!nan.value_eq(nan));
    let half = Angle::from_bits(0.5f64.to_bits());
    let minus_half = Angle::from_bits((-0.5f64).to_bits());
    assert!(half.negates(minus_half));
    assert!(!half.negates(half));
}

#[test]
fn gate_metadata_is_reported() {
    assert_eq!(GateKind::Ccx.arity(), Some(3));
    assert_eq!(GateKind::Rz(concrete(0.1)).arity(), Some(1));
    assert_eq!(
        GateKind::Opaque {
            name: "iswap".into(),
            params: vec![]
        }
        .arity(),
        None
    );
    assert_eq!(GateKind::Sdg.mnemonic(), "sdg");
    assert_eq!(GateKind::Cx.mnemonic(), "cx");
    assert!(GateKind::H.is_unitary());
    assert_eq!(GateKind::Rz(concrete(0.1)).params().len(), 1);
}
