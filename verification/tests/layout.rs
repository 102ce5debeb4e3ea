use oqci::ir::qc::{Circuit, CircuitBuilder};
use oqci::ir::types::QubitId;
use oqci::lowering::layout::{interaction_counts, DenseLayout, Layout, LayoutError, TrivialLayout};
use oqci::target::{CouplingMode, PhysicalQubit, Topology};

const P0: PhysicalQubit = PhysicalQubit(0);
const P1: PhysicalQubit = PhysicalQubit(1);
const P2: PhysicalQubit = PhysicalQubit(2);

#[test]
fn a_trivial_layout_is_the_identity() {
    let layout = Layout::trivial(3, 5).unwrap();
    assert_eq!(layout.physical(QubitId(2)), Some(P2));
    assert_eq!(layout.logical(P2), Some(QubitId(2)));
    assert_eq!(layout.permutation(), vec![0, 1, 2]);
    assert_eq!(layout.device_qubits(), 5);
    assert!(layout.is_injective());
}

#[test]
fn unoccupied_device_qubits_are_ancillas() {
    let layout = Layout::trivial(2, 4).unwrap();
    assert_eq!(layout.len(), 2);
    assert_eq!(layout.logical(PhysicalQubit(3)), None);
    assert_eq!(layout.highest_occupied(), Some(P1));
}

#[test]
fn two_logical_qubits_cannot_share_a_physical_one() {
    let err = Layout::from_pairs(vec![(QubitId(0), P1), (QubitId(1), P1)], 3).unwrap_err();
    assert_eq!(
        err,
        LayoutError::NotInjective {
            first: QubitId(0),
            second: QubitId(1),
            physical: P1,
        }
    );
}

#[test]
fn a_layout_off_the_device_is_rejected() {
    let err = Layout::from_pairs(vec![(QubitId(0), PhysicalQubit(9))], 3).unwrap_err();
    assert!(matches!(err, LayoutError::PhysicalOutOfRange { .. }));
}

#[test]
fn a_gap_in_the_logical_qubits_is_rejected() {
    let err = Layout::from_pairs(vec![(QubitId(0), P0), (QubitId(2), P2)], 3).unwrap_err();
    assert_eq!(
        err,
        LayoutError::Unmapped {
            logical: QubitId(1)
        }
    );
}

#[test]
fn a_circuit_larger_than_the_device_is_rejected() {
    let err = Layout::trivial(6, 4).unwrap_err();
    assert_eq!(
        err,
        LayoutError::DeviceTooSmall {
            needed: 6,
            available: 4
        }
    );
}

#[test]
fn swapping_exchanges_two_tenants() {
    let mut layout = Layout::trivial(3, 3).unwrap();
    layout.swap_physical(P0, P2);
    assert_eq!(layout.physical(QubitId(0)), Some(P2));
    assert_eq!(layout.physical(QubitId(2)), Some(P0));
    assert_eq!(layout.logical(P0), Some(QubitId(2)));
    assert!(layout.is_injective());
}

#[test]
fn swapping_with_an_ancilla_moves_the_tenant() {
    let mut layout = Layout::trivial(2, 3).unwrap();
    layout.swap_physical(P1, P2);
    assert_eq!(layout.physical(QubitId(1)), Some(P2));
    assert_eq!(layout.logical(P1), None);
    assert_eq!(layout.logical(P2), Some(QubitId(1)));
    assert!(layout.is_injective());
}

#[test]
fn swapping_a_qubit_with_itself_changes_nothing() {
    let mut layout = Layout::trivial(2, 2).unwrap();
    let before = layout.clone();
    layout.swap_physical(P1, P1);
    assert_eq!(layout, before);
}

#[test]
fn swaps_compose_into_a_three_cycle() {
    let mut layout = Layout::trivial(3, 3).unwrap();
    layout.swap_physical(P0, P1);
    layout.swap_physical(P1, P2);
    assert_eq!(layout.permutation(), vec![2, 0, 1]);

    let mut undone = layout.clone();
    undone.swap_physical(P1, P2);
    undone.swap_physical(P0, P1);
    assert_eq!(undone.permutation(), vec![0, 1, 2], "swaps are reversible");
}

#[test]
fn a_layout_renders_readably() {
    assert_eq!(
        Layout::trivial(2, 2).unwrap().to_text(),
        "%q0->#q0, %q1->#q1"
    );
}

#[test]
fn a_repeated_logical_qubit_is_refused() {
    assert_eq!(
        Layout::from_pairs(vec![(QubitId(0), P0), (QubitId(0), P2)], 3),
        Err(LayoutError::RepeatedLogical { logical: QubitId(0), first: P0, second: P2 })
    );
}

#[test]
fn an_empty_layout_occupies_nothing() {
    let layout = Layout::from_pairs(vec![], 4).unwrap();
    assert!(layout.is_empty());
    assert_eq!(layout.highest_occupied(), None);
    assert_eq!(layout.device_qubits(), 4);
    assert_eq!(layout.to_text(), "");
}

#[test]
fn a_swap_is_undone_by_the_same_swap() {
    let layout = Layout::from_pairs(vec![(QubitId(0), P2), (QubitId(1), P0)], 4).unwrap();
    let mut twice = layout.clone();
    twice.swap_physical(P0, PhysicalQubit(3));
    twice.swap_physical(P0, PhysicalQubit(3));
    assert_eq!(twice, layout);
}

fn line_circuit() -> Circuit {
    // q0 and q2 interact heavily; q1 barely at all.
    let mut b = CircuitBuilder::new("t");
    let q = b.alloc_qubits(3);
    b.cx(q[0], q[2]).cx(q[0], q[2]).cx(q[2], q[0]).h(q[1]);
    b.build().unwrap()
}

#[test]
fn the_trivial_strategy_reports_its_identity() {
    let topology = Topology::linear(5);
    let layout = TrivialLayout.plan(&line_circuit(), &topology).unwrap();
    assert_eq!(TrivialLayout.id(), "trivial");
    assert_eq!(layout.permutation(), vec![0, 1, 2]);
}

#[test]
fn the_dense_strategy_seats_interacting_qubits_adjacently() {
    let topology = Topology::linear(3);
    let layout = DenseLayout.plan(&line_circuit(), &topology).unwrap();
    let (a, b) = (layout.physical(QubitId(0)).unwrap(), layout.physical(QubitId(2)).unwrap());
    assert_eq!(
        topology.distance(a, b, CouplingMode::Undirected),
        Some(1),
        "the busiest pair should be adjacent, got {}",
        layout.to_text()
    );
    assert!(layout.is_injective());
}

#[test]
fn the_dense_strategy_is_deterministic() {
    let topology = Topology::linear(4);
    let circuit = line_circuit();
    assert_eq!(DenseLayout.plan(&circuit, &topology).unwrap(), DenseLayout.plan(&circuit, &topology).unwrap());
}

#[test]
fn a_disconnected_topology_still_yields_a_layout() {
    let topology = Topology::disconnected(4);
    let layout = DenseLayout.plan(&line_circuit(), &topology).unwrap();
    assert!(layout.is_injective());
}

#[test]
fn interaction_counts_ignore_operand_order() {
    let counts = interaction_counts(&line_circuit());
    assert_eq!(counts[0][2], 3, "cx 0,2 twice and cx 2,0 once");
    assert_eq!(counts[0][1], 0);
}

#[test]
fn a_three_qubit_gate_contributes_every_pair() {
    let mut b = CircuitBuilder::new("t");
    let q = b.alloc_qubits(3);
    b.ccx(q[0], q[1], q[2]);
    let counts = interaction_counts(&b.build().unwrap());
    assert_eq!(counts[0][1], 1);
    assert_eq!(counts[0][2], 1);
    assert_eq!(counts[1][2], 1);
}

#[test]
fn the_dense_strategy_puts_the_heaviest_qubit_on_the_best_connected_site() {
    // On a line of three, the middle qubit has the most neighbours; the
    // busiest logical qubit (q0, tie with q2, lower index wins) takes it.
    let topology = Topology::linear(3);
    let layout = DenseLayout.plan(&line_circuit(), &topology).unwrap();
    assert_eq!(layout.physical(QubitId(0)), Some(PhysicalQubit(1)));
    assert_eq!(layout.physical(QubitId(2)), Some(PhysicalQubit(0)));
    assert_eq!(layout.physical(QubitId(1)), Some(PhysicalQubit(2)));
}

#[test]
fn the_dense_strategy_rejects_a_circuit_larger_than_the_device() {
    let topology = Topology::linear(2);
    assert_eq!(
        DenseLayout.plan(&line_circuit(), &topology),
        Err(LayoutError::DeviceTooSmall { needed: 3, available: 2 })
    );
}

#[test]
fn the_builtin_rules_are_listed_in_table_order() {
    let ids = oqci::lowering::rules::builtin_ids();
    assert_eq!(ids.len(), 18);
    assert_eq!(ids[0], "id-to-nothing");
    assert_eq!(ids[7], "h-to-rz-sx");
    assert_eq!(ids[17], "u-to-rz-sx");
}
