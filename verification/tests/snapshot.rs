use oqci::cli::snapshot::{graph_of, EdgeView};
use oqci::ir::convert::qc_to_qco;
use oqci::ir::qc::CircuitBuilder;
use oqci::ir::types::{ClbitId, QubitId};

#[test]
fn graph_view_labels_boundaries_and_ops() {
    let mut b = CircuitBuilder::new("c");
    b.alloc_qubits(1);
    b.h(QubitId(0));
    let dag = qc_to_qco(&b.build().unwrap()).unwrap();

    let view = graph_of(&dag).unwrap();
    assert_eq!(view.op_count, 1);
    assert_eq!(view.depth, 1);
    assert!(view.edges.iter().any(|e| e.from == "in:%q0" && e.to == "op:0"));
    assert!(view.edges.iter().any(|e| e.from == "op:0" && e.to == "out:%q0"));
    assert!(view.edges.iter().all(|e| e.kind == "data"));
}

#[test]
fn control_edges_are_labelled() {
    let mut b = CircuitBuilder::new("c");
    b.alloc_qubits(1);
    b.alloc_clbits(1);
    b.x(QubitId(0)).measure(QubitId(0), ClbitId(0)).x(QubitId(0));
    let dag = qc_to_qco(&b.build().unwrap()).unwrap();

    let view = graph_of(&dag).unwrap();
    assert!(view.edges.iter().any(|e| e.kind == "control"));
}

#[test]
fn a_bell_pair_has_two_layers_of_width_one() {
    let mut b = CircuitBuilder::new("bell");
    b.alloc_qubits(2);
    b.alloc_clbits(1);
    b.h(QubitId(0)).cx(QubitId(0), QubitId(1)).measure(QubitId(1), ClbitId(0));
    let dag = qc_to_qco(&b.build().unwrap()).unwrap();

    let view = graph_of(&dag).unwrap();
    assert_eq!(view.op_count, 3);
    assert_eq!(view.depth, 3);
    assert_eq!(view.max_parallel_width, 1);
    assert_eq!(view.layers, vec![vec![0], vec![1], vec![2]]);
    assert!(view.edges.contains(&EdgeView {
        from: "in:%c0".to_string(),
        to: "op:2".to_string(),
        wire: "%c0".to_string(),
        kind: "data".to_string(),
    }));
}

#[test]
fn independent_gates_share_a_layer() {
    let mut b = CircuitBuilder::new("c");
    b.alloc_qubits(12);
    b.h(QubitId(0)).h(QubitId(11)).cx(QubitId(0), QubitId(11));
    let dag = qc_to_qco(&b.build().unwrap()).unwrap();

    let view = graph_of(&dag).unwrap();
    assert_eq!(view.layers, vec![vec![0, 1], vec![2]]);
    assert_eq!(view.max_parallel_width, 2);
    assert!(view.edges.iter().any(|e| e.from == "in:%q11" && e.to == "op:1" && e.wire == "%q11"));
    assert!(view.edges.iter().any(|e| e.from == "op:2" && e.to == "out:%q11"));
}
