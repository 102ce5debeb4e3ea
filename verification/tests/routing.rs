use oqci::ir::qc::{Circuit, CircuitBuilder, Instruction};
use oqci::ir::types::{ClbitId, GateKind, QubitId};
use oqci::lowering::layout::{Layout, TrivialLayout};
use oqci::lowering::routing::{
    orientation_policy, repair_orientation, routing_mode, swap_instruction, OrientationPolicy,
    ShortestPathRouter,
};
use oqci::lowering::{reject_unsupported_classical, LoweringError, UnroutableReason};
use oqci::target::{CouplingMode, MeasurementSupport, PhysicalQubit, Topology};

fn p(n: u32) -> PhysicalQubit {
    PhysicalQubit(n)
}

fn gate(kind: GateKind, qubits: &[u32]) -> Instruction {
    Instruction::Gate {
        kind,
        qubits: qubits.iter().map(|q| QubitId(*q)).collect(),
    }
}

fn circuit(n: u32, build: impl FnOnce(&mut CircuitBuilder)) -> Circuit {
    let mut b = CircuitBuilder::new("c");
    b.alloc_qubits(n);
    b.alloc_clbits(n);
    build(&mut b);
    b.build().unwrap()
}

fn is_local(t: &Topology, insts: &[Instruction], mode: CouplingMode) -> bool {
    insts.iter().all(|i| match i {
        Instruction::Gate { qubits, .. } if qubits.len() == 2 => {
            t.couples(p(qubits[0].0), p(qubits[1].0), mode)
        }
        _ => true,
    })
}

#[test]
fn adjacent_operands_need_no_swap() {
    let t = Topology::linear(3);
    let c = circuit(3, |b| {
        b.cx(QubitId(0), QubitId(1));
    });
    let out = ShortestPathRouter
        .route(&c, Layout::trivial(3, 3).unwrap(), &t, true, true)
        .unwrap();
    assert_eq!(out.swaps_inserted, 0);
    assert_eq!(out.instructions, vec![gate(GateKind::Cx, &[0, 1])]);
    assert_eq!(out.final_layout, out.initial_layout);
}

#[test]
fn distant_operands_are_walked_together() {
    let t = Topology::linear(4);
    let c = circuit(4, |b| {
        b.cx(QubitId(0), QubitId(3));
    });
    let out = ShortestPathRouter
        .route(&c, Layout::trivial(4, 4).unwrap(), &t, true, true)
        .unwrap();
    assert_eq!(out.swaps_inserted, 2);
    assert_eq!(
        out.instructions,
        vec![
            gate(GateKind::Swap, &[0, 1]),
            gate(GateKind::Swap, &[1, 2]),
            gate(GateKind::Cx, &[2, 3]),
        ]
    );
    assert_eq!(out.final_layout.physical(QubitId(0)), Some(p(2)));
    assert_eq!(out.final_layout.physical(QubitId(1)), Some(p(0)));
    assert_eq!(out.final_layout.physical(QubitId(2)), Some(p(1)));
    assert!(is_local(&t, &out.instructions, CouplingMode::Undirected));
}

#[test]
fn an_unmapped_operand_is_reported_with_its_index() {
    let t = Topology::linear(3);
    let c = circuit(3, |b| {
        b.h(QubitId(0)).cx(QubitId(0), QubitId(2));
    });
    let layout = Layout::trivial(2, 3).unwrap();
    let err = ShortestPathRouter.route(&c, layout, &t, true, true).unwrap_err();
    assert_eq!(
        err,
        LoweringError::UnmappedQubit {
            index: 1,
            qubit: QubitId(2)
        }
    );
}

#[test]
fn disconnected_qubits_cannot_be_routed() {
    let t = Topology::disconnected(2);
    let c = circuit(2, |b| {
        b.cz(QubitId(0), QubitId(1));
    });
    let err = ShortestPathRouter
        .route(&c, Layout::trivial(2, 2).unwrap(), &t, true, true)
        .unwrap_err();
    assert_eq!(
        err,
        LoweringError::Unroutable {
            index: 0,
            from: p(0),
            to: p(1),
            reason: UnroutableReason::NoPath
        }
    );
}

#[test]
fn a_measured_wire_blocks_routing_without_mid_circuit_measurement() {
    let t = Topology::linear(3);
    let c = circuit(3, |b| {
        b.measure(QubitId(1), ClbitId(1)).cx(QubitId(0), QubitId(2));
    });
    let err = ShortestPathRouter
        .route(&c, Layout::trivial(3, 3).unwrap(), &t, false, true)
        .unwrap_err();
    assert_eq!(
        err,
        LoweringError::Unroutable {
            index: 1,
            from: p(0),
            to: p(2),
            reason: UnroutableReason::MeasurementFrozenWire
        }
    );
    // With mid-circuit measurement the same circuit routes.
    let out = ShortestPathRouter
        .route(&c, Layout::trivial(3, 3).unwrap(), &t, true, true)
        .unwrap();
    assert_eq!(out.swaps_inserted, 1);
}

#[test]
fn one_way_couplings_carry_swaps_only_when_reversal_is_possible() {
    let t = Topology::new(3, vec![(p(0), p(1)), (p(1), p(2))]);
    let c = circuit(3, |b| {
        b.cx(QubitId(0), QubitId(2));
    });
    let routed = ShortestPathRouter
        .route(&c, Layout::trivial(3, 3).unwrap(), &t, true, true)
        .unwrap();
    assert_eq!(routed.swaps_inserted, 1);
    let err = ShortestPathRouter
        .route(&c, Layout::trivial(3, 3).unwrap(), &t, true, false)
        .unwrap_err();
    assert!(matches!(
        err,
        LoweringError::Unroutable {
            reason: UnroutableReason::NoPath,
            ..
        }
    ));
}

#[test]
fn routing_modes_follow_reversibility() {
    assert_eq!(routing_mode(true), CouplingMode::Undirected);
    assert_eq!(routing_mode(false), CouplingMode::Symmetric);
}

#[test]
fn swaps_are_written_in_a_declared_orientation() {
    let t = Topology::new(2, vec![(p(1), p(0))]);
    assert_eq!(swap_instruction(p(0), p(1), &t), gate(GateKind::Swap, &[1, 0]));
    assert_eq!(swap_instruction(p(1), p(0), &t), gate(GateKind::Swap, &[1, 0]));
}

#[test]
fn orientation_policies_are_declared_per_operation() {
    assert_eq!(orientation_policy(&GateKind::Cz), OrientationPolicy::Symmetric);
    assert_eq!(orientation_policy(&GateKind::Swap), OrientationPolicy::Symmetric);
    assert_eq!(
        orientation_policy(&GateKind::Cx),
        OrientationPolicy::ConjugateBoth("h")
    );
    assert_eq!(orientation_policy(&GateKind::Cy), OrientationPolicy::NoRepair);
}

#[test]
fn a_reversed_cx_is_conjugated_by_hadamards() {
    let t = Topology::new(2, vec![(p(1), p(0))]);
    let (out, repaired) = repair_orientation(&[gate(GateKind::Cx, &[0, 1])], &t).unwrap();
    assert_eq!(repaired, 1);
    assert_eq!(
        out,
        vec![
            gate(GateKind::H, &[0]),
            gate(GateKind::H, &[1]),
            gate(GateKind::Cx, &[1, 0]),
            gate(GateKind::H, &[0]),
            gate(GateKind::H, &[1]),
        ]
    );
}

#[test]
fn symmetric_operations_are_relabelled_and_native_ones_kept() {
    let t = Topology::new(2, vec![(p(1), p(0))]);
    let input = [
        gate(GateKind::Cz, &[0, 1]),
        gate(GateKind::Cx, &[1, 0]),
        gate(GateKind::H, &[0]),
    ];
    let (out, repaired) = repair_orientation(&input, &t).unwrap();
    assert_eq!(repaired, 1);
    assert_eq!(
        out,
        vec![
            gate(GateKind::Cz, &[1, 0]),
            gate(GateKind::Cx, &[1, 0]),
            gate(GateKind::H, &[0]),
        ]
    );
}

#[test]
fn an_unrepairable_orientation_is_refused() {
    let t = Topology::new(2, vec![(p(1), p(0))]);
    let err = repair_orientation(&[gate(GateKind::H, &[0]), gate(GateKind::Cy, &[0, 1])], &t)
        .unwrap_err();
    assert_eq!(
        err,
        LoweringError::UnrepairableOrientation {
            index: 1,
            mnemonic: "cy".into(),
            detail: "the device declares #q1->#q0 but not #q0->#q1, and no verified reversal exists for this operation".into()
        }
    );
}

#[test]
fn routed_then_repaired_output_is_natively_oriented() {
    let t = Topology::new(4, vec![(p(1), p(0)), (p(1), p(2)), (p(3), p(2))]);
    let c = circuit(4, |b| {
        b.cx(QubitId(0), QubitId(3)).cz(QubitId(2), QubitId(1));
    });
    let layout = TrivialLayout.plan(&c, &t).unwrap();
    let routed = ShortestPathRouter.route(&c, layout, &t, true, true).unwrap();
    assert!(is_local(&t, &routed.instructions, CouplingMode::Undirected));
    let (out, _) = repair_orientation(&routed.instructions, &t).unwrap();
    assert!(is_local(&t, &out, CouplingMode::Directed));
}

#[test]
fn a_replay_recovers_every_inserted_swap() {
    let c = circuit(2, |b| {
        b.h(QubitId(0));
    });
    let swapped = Layout::from_pairs(vec![(QubitId(0), p(1)), (QubitId(1), p(0))], 2).unwrap();
    let out = oqci::lowering::routing::RoutingOutput {
        instructions: vec![gate(GateKind::Swap, &[0, 1]), gate(GateKind::H, &[0])],
        initial_layout: Layout::trivial(2, 2).unwrap(),
        final_layout: swapped,
        swaps_inserted: 1,
    };
    let mut sequence = 4usize;
    let events = oqci::replay::swap_events_from_diff(&c, &out, &mut sequence).unwrap();
    assert_eq!(events.len(), 1);
    assert_eq!(sequence, 5);
    assert_eq!(events[0].sequence, 5);
    assert_eq!((events[0].physical_a, events[0].physical_b), (0, 1));
    assert_eq!(events[0].layout_after, vec![1, 0]);
}

#[test]
fn a_replay_of_a_swap_free_routing_has_no_events() {
    let t = Topology::linear(3);
    let c = circuit(3, |b| {
        b.h(QubitId(0)).cx(QubitId(0), QubitId(1));
    });
    let out = ShortestPathRouter
        .route(&c, Layout::trivial(3, 3).unwrap(), &t, true, true)
        .unwrap();
    let mut sequence = 0usize;
    assert_eq!(oqci::replay::swap_events_from_diff(&c, &out, &mut sequence), Ok(vec![]));
    assert_eq!(sequence, 0);
}

#[test]
fn a_replay_refuses_a_layout_the_router_did_not_reach() {
    let c = circuit(2, |b| {
        b.h(QubitId(0));
    });
    let out = oqci::lowering::routing::RoutingOutput {
        instructions: vec![gate(GateKind::Swap, &[0, 1]), gate(GateKind::H, &[0])],
        initial_layout: Layout::trivial(2, 2).unwrap(),
        final_layout: Layout::trivial(2, 2).unwrap(),
        swaps_inserted: 1,
    };
    let mut sequence = 0usize;
    assert_eq!(
        oqci::replay::swap_events_from_diff(&c, &out, &mut sequence),
        Err("replayed layout trajectory does not match the router's own final layout".to_string())
    );
}

#[test]
fn a_replay_refuses_an_insertion_that_is_not_a_swap() {
    let t = Topology::linear(2);
    let c = circuit(2, |b| {
        b.h(QubitId(0));
    });
    let mut out = ShortestPathRouter
        .route(&c, Layout::trivial(2, 2).unwrap(), &t, true, true)
        .unwrap();
    out.instructions.insert(0, gate(GateKind::X, &[1]));
    let mut sequence = 0usize;
    assert_eq!(
        oqci::replay::swap_events_from_diff(&c, &out, &mut sequence),
        Err("routing replay found an unexpected insertion (`x`), not a swap".to_string())
    );
}

#[test]
fn a_replay_refuses_a_dropped_instruction() {
    let t = Topology::linear(2);
    let c = circuit(2, |b| {
        b.h(QubitId(0)).x(QubitId(1));
    });
    let mut out = ShortestPathRouter
        .route(&c, Layout::trivial(2, 2).unwrap(), &t, true, true)
        .unwrap();
    out.instructions.pop();
    let mut sequence = 0usize;
    assert_eq!(
        oqci::replay::swap_events_from_diff(&c, &out, &mut sequence),
        Err("routing replay did not account for every original instruction".to_string())
    );
}

#[test]
fn classical_operations_a_device_cannot_perform_are_refused_up_front() {
    let c = circuit(2, |b| {
        b.h(QubitId(0)).measure(QubitId(0), ClbitId(0)).x(QubitId(0)).reset(QubitId(1));
    });
    let all = MeasurementSupport { measurement: true, mid_circuit_measurement: true, reset: true };
    assert_eq!(reject_unsupported_classical(&c, all, "dev@1"), Ok(()));
    let no_measure = MeasurementSupport { measurement: false, ..all };
    assert_eq!(
        reject_unsupported_classical(&c, no_measure, "dev@1"),
        Err(LoweringError::UnsupportedClassicalOperation {
            index: 1,
            operation: "measure".to_string(),
            target: "dev@1".to_string()
        })
    );
    let no_mid = MeasurementSupport { mid_circuit_measurement: false, ..all };
    assert_eq!(
        reject_unsupported_classical(&c, no_mid, "dev@1"),
        Err(LoweringError::InputMeasuresMidCircuit { index: 1, qubit: QubitId(0), target: "dev@1".to_string() })
    );
    let no_reset = MeasurementSupport { reset: false, ..all };
    assert_eq!(
        reject_unsupported_classical(&c, no_reset, "dev@1"),
        Err(LoweringError::UnsupportedClassicalOperation {
            index: 3,
            operation: "reset".to_string(),
            target: "dev@1".to_string()
        })
    );
}

#[test]
fn a_final_measurement_is_fine_without_mid_circuit_support() {
    let c = circuit(2, |b| {
        b.h(QubitId(0)).cx(QubitId(0), QubitId(1)).measure(QubitId(0), ClbitId(0)).measure(QubitId(1), ClbitId(1));
    });
    let support = MeasurementSupport { measurement: true, mid_circuit_measurement: false, reset: false };
    assert_eq!(reject_unsupported_classical(&c, support, "dev@1"), Ok(()));
}

#[test]
fn routing_the_same_circuit_twice_gives_the_same_result() {
    let t = Topology::new(
        4,
        vec![(p(0), p(1)), (p(1), p(0)), (p(0), p(2)), (p(2), p(0)), (p(1), p(3)), (p(3), p(1)), (p(2), p(3)), (p(3), p(2))],
    );
    let c = circuit(4, |b| {
        b.gate(GateKind::Cx, vec![QubitId(0), QubitId(3)]);
        b.gate(GateKind::Cx, vec![QubitId(1), QubitId(2)]);
    });
    let run = || {
        let layout = TrivialLayout.plan(&c, &t).unwrap();
        ShortestPathRouter.route(&c, layout, &t, true, true).unwrap()
    };
    let (first, second) = (run(), run());
    assert_eq!(first.instructions, second.instructions);
    assert_eq!(first.final_layout, second.final_layout);
    assert_eq!(first.swaps_inserted, second.swaps_inserted);
    // Two shortest walks join 0 and 3; the search expands neighbours in
    // ascending order, so the walk goes through 1.
    assert_eq!(first.instructions[0], gate(GateKind::Swap, &[0, 1]));
}
