use oqci::cli::pipeline::Stage;
use oqci::cli::{selection_from, validate_ids};
use oqci::ir::qc::{CircuitBuilder, Instruction};
use oqci::ir::types::{Angle, ClbitId, GateKind, Param, QubitId};
use oqci::lowering::rules::Exactness;
use oqci::pass::canonicalize::Canonicalize;
use oqci::pass::{default_pipeline_ids, next_action, PassError, PassOutput, PassSelection, PipelineAction};
use oqci::ir::error::IrError;

fn concrete(x: f64) -> Param {
    Param::concrete(Angle::from_bits(x.to_bits()))
}

fn run(build: impl FnOnce(&mut CircuitBuilder)) -> PassOutput {
    let mut b = CircuitBuilder::new("c");
    b.alloc_qubits(2);
    b.alloc_clbits(1);
    build(&mut b);
    Canonicalize.run(&b.build().unwrap()).unwrap()
}

#[test]
fn identity_gates_are_removed() {
    let out = run(|b| {
        b.h(QubitId(0))
            .gate(GateKind::I, vec![QubitId(0)])
            .x(QubitId(0));
    });
    assert!(out.changed);
    assert_eq!(out.circuit.len(), 2);
    assert_eq!(out.notes, vec!["removed 1 identity operation(s)"]);
}

#[test]
fn exact_zero_rotations_are_removed() {
    let out = run(|b| {
        b.rx(concrete(0.0), QubitId(0))
            .ry(concrete(0.0), QubitId(0))
            .rz(concrete(0.0), QubitId(0))
            .gate(GateKind::P(concrete(0.0)), vec![QubitId(0)]);
    });
    assert!(out.changed);
    assert!(out.circuit.is_empty());
}

#[test]
fn nonzero_rotations_are_kept() {
    let out = run(|b| {
        b.rz(concrete(0.5), QubitId(0));
    });
    assert!(!out.changed);
    assert_eq!(out.circuit.len(), 1);
}

#[test]
fn near_zero_is_not_treated_as_zero() {
    let out = run(|b| {
        b.rz(concrete(f64::EPSILON), QubitId(0));
    });
    assert!(!out.changed);
    assert_eq!(out.circuit.len(), 1);
}

#[test]
fn negative_zero_is_still_zero() {
    let out = run(|b| {
        b.rz(concrete(-0.0), QubitId(0));
    });
    assert!(out.changed, "-0.0 == 0.0 in IEEE-754");
    assert!(out.circuit.is_empty());
}

#[test]
fn symbolic_parameters_are_never_assumed_zero() {
    let out = run(|b| {
        b.rz(Param::symbol("theta"), QubitId(0));
    });
    assert!(!out.changed);
    assert_eq!(
        out.circuit.instructions().to_vec(),
        vec![Instruction::Gate {
            kind: GateKind::Rz(Param::symbol("theta")),
            qubits: vec![QubitId(0)]
        }]
    );
}

#[test]
fn measurement_and_reset_are_never_removed() {
    let out = run(|b| {
        b.measure(QubitId(0), ClbitId(0)).reset(QubitId(1));
    });
    assert!(!out.changed);
    assert_eq!(out.circuit.len(), 2);
}

#[test]
fn other_gates_are_left_alone_even_when_equivalent_up_to_phase() {
    let out = run(|b| {
        b.gate(
            GateKind::P(concrete(std::f64::consts::PI)),
            vec![QubitId(0)],
        );
    });
    assert!(!out.changed);
}

#[test]
fn register_widths_survive_removal() {
    let out = run(|b| {
        b.gate(GateKind::I, vec![QubitId(0)]);
    });
    assert_eq!(out.circuit.num_qubits(), 2);
    assert_eq!(out.circuit.num_clbits(), 1);
}

#[test]
fn canonicalizing_twice_changes_nothing_more() {
    let once = run(|b| {
        b.h(QubitId(0))
            .gate(GateKind::I, vec![QubitId(1)])
            .rz(concrete(0.0), QubitId(0))
            .cx(QubitId(0), QubitId(1));
    });
    assert_eq!(once.notes, vec!["removed 2 identity operation(s)"]);
    let twice = Canonicalize.run(&once.circuit).unwrap();
    assert!(!twice.changed);
    assert!(twice.notes.is_empty());
    assert_eq!(twice.circuit, once.circuit);
}

#[test]
fn no_flags_means_every_pass() {
    assert!(matches!(
        selection_from(&[], &[]).unwrap(),
        PassSelection::All
    ));
}

#[test]
fn passes_and_disable_cannot_be_combined() {
    let error = selection_from(&["schedule".into()], &["canonicalize".into()]).unwrap_err();
    assert!(error.contains("cannot be combined"));
}

#[test]
fn unknown_pass_ids_are_rejected_with_the_available_list() {
    let error = selection_from(&["no-such-pass".into()], &[]).unwrap_err();
    assert!(error.contains("unknown pass") && error.contains("gate-cancellation"));
    assert_eq!(
        error,
        "unknown pass `no-such-pass`; available: canonicalize, gate-cancellation, rotation-merge, canonicalize, schedule"
    );
}

#[test]
fn known_pass_ids_are_accepted() {
    assert!(selection_from(&["gate-cancellation".into()], &[]).is_ok());
    assert!(selection_from(&[], &["rotation-merge".into()]).is_ok());
}

#[test]
fn the_first_unknown_id_is_the_one_named() {
    let error = validate_ids(&["schedule".into(), "bogus".into(), "worse".into()]).unwrap_err();
    assert!(error.starts_with("unknown pass `bogus`"));
    assert!(validate_ids(&["schedule".into(), "canonicalize".into()]).is_ok());
}

#[test]
fn a_selection_includes_what_it_names() {
    let only = PassSelection::only(&["schedule".to_string()]);
    assert!(only.includes("schedule"));
    assert!(!only.includes("canonicalize"));
    let except = PassSelection::all_except(&["schedule".to_string()]);
    assert!(!except.includes("schedule"));
    assert!(except.includes("canonicalize"));
    assert!(PassSelection::All.includes("anything"));
}

#[test]
fn the_default_pipeline_runs_canonicalization_twice() {
    assert_eq!(
        default_pipeline_ids(),
        vec![
            "canonicalize",
            "gate-cancellation",
            "rotation-merge",
            "canonicalize",
            "schedule"
        ]
    );
}

#[test]
fn a_pass_error_names_the_pass() {
    assert_eq!(
        PassError::from_ir("canonicalize", IrError::EmptyOpaqueName),
        PassError::Ir {
            pass: "canonicalize".into(),
            source: IrError::EmptyOpaqueName
        }
    );
}

#[test]
fn stages_are_listed_in_pipeline_order() {
    assert_eq!(Stage::all(), vec![Stage::QcIr, Stage::QcoIr, Stage::Qir]);
    let labels: Vec<&str> = Stage::all().into_iter().map(Stage::label).collect();
    assert_eq!(labels, vec!["qc-ir", "qco-ir", "qir"]);
}

#[test]
fn exactness_combines_to_the_weaker_claim() {
    let exact = Exactness::Exact;
    let phase = Exactness::UpToGlobalPhase;
    assert_eq!(exact.combine(exact), exact);
    assert_eq!(exact.combine(phase), phase);
    assert_eq!(phase.combine(exact), phase);
    assert_eq!(phase.combine(phase), phase);
}

#[test]
fn the_pipeline_runs_selected_passes_in_order_and_records_the_rest() {
    let ids = ["canonicalize", "gate-cancellation", "rotation-merge", "canonicalize", "schedule"];
    let ablate = PassSelection::all_except(&["rotation-merge".to_string()]);
    assert_eq!(next_action(&ids, &ablate, 0), PipelineAction::Run(0));
    assert_eq!(next_action(&ids, &ablate, 2), PipelineAction::Skip(2));
    assert_eq!(next_action(&ids, &ablate, 5), PipelineAction::Finish);
    let only = PassSelection::only(&["schedule".to_string()]);
    assert_eq!(next_action(&ids, &only, 3), PipelineAction::Skip(3));
    assert_eq!(next_action(&ids, &only, 4), PipelineAction::Run(4));
    assert_eq!(next_action(&ids, &PassSelection::All, 1), PipelineAction::Run(1));
}
