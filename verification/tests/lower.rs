use oqci::ir::qc::{Circuit, CircuitBuilder, Instruction};
use oqci::ir::types::{GateKind, QubitId};
use oqci::lowering::layout::{Layout, LayoutError};
use oqci::lowering::lower::lower_onto;
use oqci::lowering::{LayoutChoice, LoweringError};
use oqci::target::{PhysicalQubit, Topology};

fn cx_circuit(n: u32, a: u32, b: u32) -> Circuit {
    let mut builder = CircuitBuilder::new("c");
    builder.alloc_qubits(n);
    builder.gate(GateKind::Cx, vec![QubitId(a), QubitId(b)]);
    builder.build().unwrap()
}

#[test]
fn lowering_routes_and_records_each_step() {
    let topology = Topology::linear(3);
    let circuit = cx_circuit(3, 0, 2);
    let out = lower_onto(&circuit, &topology, &LayoutChoice::Trivial, true, true).unwrap();
    assert_eq!(out.swaps_inserted, 1);
    assert_eq!(out.orientations_repaired, 0);
    assert_eq!(out.circuit.num_qubits(), 3);
    let ids: Vec<&str> = out.steps.iter().map(|s| s.id.as_str()).collect();
    assert_eq!(ids, vec!["layout", "routing", "orientation-repair"]);
    assert_eq!(out.steps[0].detail, "trivial layout: %q0->#q0, %q1->#q1, %q2->#q2");
    assert_eq!(out.steps[1].detail, "1 swap(s) inserted");
    assert_eq!(out.steps[2].detail, "0 reversed operation(s) repaired");
    for inst in out.circuit.instructions() {
        if let Instruction::Gate { qubits, .. } = inst {
            if qubits.len() == 2 {
                assert!(topology.supports(PhysicalQubit(qubits[0].0), PhysicalQubit(qubits[1].0)));
            }
        }
    }
}

#[test]
fn lowering_turns_a_reversed_operation_round() {
    let topology = Topology::new(2, vec![(PhysicalQubit(1), PhysicalQubit(0))]);
    let circuit = cx_circuit(2, 0, 1);
    let out = lower_onto(&circuit, &topology, &LayoutChoice::Trivial, true, true).unwrap();
    assert_eq!(out.swaps_inserted, 0);
    assert_eq!(out.orientations_repaired, 1);
    assert_eq!(out.circuit.len(), 5);
    assert_eq!(
        out.circuit.instructions()[2],
        Instruction::Gate { kind: GateKind::Cx, qubits: vec![QubitId(1), QubitId(0)] }
    );
    assert_eq!(out.steps[2].detail, "1 reversed operation(s) repaired");
}

#[test]
fn lowering_refuses_a_device_too_small() {
    let topology = Topology::linear(2);
    let circuit = cx_circuit(3, 0, 2);
    let err = lower_onto(&circuit, &topology, &LayoutChoice::Dense, true, true).unwrap_err();
    assert_eq!(
        err,
        LoweringError::Layout { source: LayoutError::DeviceTooSmall { needed: 3, available: 2 } }
    );
}

#[test]
fn lowering_refuses_a_supplied_layout_shorter_than_the_circuit() {
    let topology = Topology::linear(3);
    let circuit = cx_circuit(3, 0, 2);
    let layout = Layout::trivial(2, 3).unwrap();
    let err = lower_onto(&circuit, &topology, &LayoutChoice::Explicit(layout), true, true).unwrap_err();
    assert_eq!(
        err,
        LoweringError::Layout { source: LayoutError::DeviceTooSmall { needed: 3, available: 2 } }
    );
}

#[test]
fn lowering_reports_an_unroutable_pair() {
    let topology = Topology::disconnected(2);
    let circuit = cx_circuit(2, 0, 1);
    let err = lower_onto(&circuit, &topology, &LayoutChoice::Trivial, true, true).unwrap_err();
    assert!(matches!(err, LoweringError::Unroutable { .. }));
}

#[test]
fn lowering_the_same_circuit_twice_gives_the_same_result() {
    let topology = Topology::linear(4);
    let mut builder = CircuitBuilder::new("c");
    builder.alloc_qubits(4);
    builder.gate(GateKind::Cx, vec![QubitId(0), QubitId(3)]);
    builder.gate(GateKind::Cx, vec![QubitId(1), QubitId(2)]);
    let circuit = builder.build().unwrap();
    let first = lower_onto(&circuit, &topology, &LayoutChoice::Dense, true, true).unwrap();
    let second = lower_onto(&circuit, &topology, &LayoutChoice::Dense, true, true).unwrap();
    assert_eq!(first.circuit.instructions(), second.circuit.instructions());
    assert_eq!(first.initial_layout, second.initial_layout);
    assert_eq!(first.final_layout, second.final_layout);
    assert_eq!(first.swaps_inserted, second.swaps_inserted);
    let details = |o: &oqci::lowering::lower::RoutedLowering| {
        o.steps.iter().map(|s| s.detail.clone()).collect::<Vec<_>>()
    };
    assert_eq!(details(&first), details(&second));
}
