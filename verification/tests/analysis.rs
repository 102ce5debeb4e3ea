use oqci::analysis::diff::{diff_circuits, DiffEntry};
use oqci::ir::qc::{Circuit, CircuitBuilder, Instruction};
use oqci::ir::types::{Angle, GateKind, Param, QubitId};

fn concrete(x: f64) -> Param {
    Param::concrete(Angle::from_bits(x.to_bits()))
}

fn circuit(build: impl FnOnce(&mut CircuitBuilder)) -> Circuit {
    let mut b = CircuitBuilder::new("c");
    b.alloc_qubits(3);
    build(&mut b);
    b.build().unwrap()
}

#[test]
fn identical_circuits_produce_no_changes() {
    let a = circuit(|b| {
        b.h(QubitId(0)).cx(QubitId(0), QubitId(1));
    });
    let diff = diff_circuits(&a, &a);
    assert!(diff.is_empty());
    assert_eq!(diff.entries.len(), 2);
    assert!(diff
        .entries
        .iter()
        .all(|e| matches!(e, DiffEntry::Unchanged(_))));
}

#[test]
fn a_removed_gate_is_reported_once() {
    let before = circuit(|b| {
        b.h(QubitId(0)).x(QubitId(0)).h(QubitId(0));
    });
    let after = circuit(|b| {
        b.h(QubitId(0)).h(QubitId(0));
    });
    let diff = diff_circuits(&before, &after);
    assert_eq!(diff.removed_count(), 1);
    assert_eq!(diff.added_count(), 0);
    assert_eq!(
        diff.entries
            .iter()
            .find(|e| matches!(e, DiffEntry::Removed(_)))
            .map(DiffEntry::instruction),
        Some(&Instruction::Gate {
            kind: GateKind::X,
            qubits: vec![QubitId(0)]
        })
    );
}

#[test]
fn an_added_gate_is_reported_once() {
    let before = circuit(|b| {
        b.h(QubitId(0));
    });
    let after = circuit(|b| {
        b.h(QubitId(0)).x(QubitId(1));
    });
    let diff = diff_circuits(&before, &after);
    assert_eq!(diff.added_count(), 1);
    assert_eq!(diff.removed_count(), 0);
}

#[test]
fn a_replacement_shows_as_a_removal_plus_an_addition() {
    let before = circuit(|b| {
        b.rz(concrete(0.25), QubitId(0)).rz(concrete(0.5), QubitId(0));
    });
    let after = circuit(|b| {
        b.rz(concrete(0.75), QubitId(0));
    });
    let diff = diff_circuits(&before, &after);
    assert_eq!(diff.removed_count(), 2);
    assert_eq!(diff.added_count(), 1);
    assert!(!diff.is_empty());
}

#[test]
fn everything_removed_when_the_after_circuit_is_empty() {
    let before = circuit(|b| {
        b.h(QubitId(0)).x(QubitId(1));
    });
    let after = circuit(|_| {});
    let diff = diff_circuits(&before, &after);
    assert_eq!(diff.removed_count(), 2);
    assert_eq!(diff.entries.len(), 2);
}

#[test]
fn common_prefix_and_suffix_are_preserved_around_a_change() {
    let before = circuit(|b| {
        b.h(QubitId(0)).x(QubitId(1)).h(QubitId(2));
    });
    let after = circuit(|b| {
        b.h(QubitId(0)).h(QubitId(2));
    });
    let diff = diff_circuits(&before, &after);
    let markers: String = diff.entries.iter().map(DiffEntry::marker).collect();
    assert_eq!(markers, " - ");
}

#[test]
fn markers_render_git_style() {
    assert_eq!(
        DiffEntry::Unchanged(Instruction::Reset { qubit: QubitId(0) }).marker(),
        ' '
    );
    assert_eq!(
        DiffEntry::Removed(Instruction::Reset { qubit: QubitId(0) }).marker(),
        '-'
    );
    assert_eq!(
        DiffEntry::Added(Instruction::Reset { qubit: QubitId(0) }).marker(),
        '+'
    );
}

#[test]
fn a_diff_keeps_a_longest_common_subsequence_and_loses_nothing() {
    // before: h x y z ; after: x z h — the longest common subsequence has two
    // instructions (x z).
    let before = circuit(|b| {
        b.h(QubitId(0)).x(QubitId(0)).y(QubitId(0)).z(QubitId(0));
    });
    let after = circuit(|b| {
        b.x(QubitId(0)).z(QubitId(0)).h(QubitId(0));
    });
    let diff = diff_circuits(&before, &after);
    let kept = diff
        .entries
        .iter()
        .filter(|e| matches!(e, DiffEntry::Unchanged(_)))
        .count();
    assert_eq!(kept, 2);
    let before_side: Vec<Instruction> = diff
        .entries
        .iter()
        .filter(|e| !matches!(e, DiffEntry::Added(_)))
        .map(|e| e.instruction().clone())
        .collect();
    assert_eq!(before_side, before.instructions().to_vec());
    let after_side: Vec<Instruction> = diff
        .entries
        .iter()
        .filter(|e| !matches!(e, DiffEntry::Removed(_)))
        .map(|e| e.instruction().clone())
        .collect();
    assert_eq!(after_side, after.instructions().to_vec());
    let markers: String = diff.entries.iter().map(DiffEntry::marker).collect();
    assert_eq!(markers, "- - +");
}
