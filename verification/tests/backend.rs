use oqci::backend::BackendError;
use oqci::backend::executable::{Executable, ExecutableOp};
use oqci::backend::result::ExecutionSettings;
use oqci::backend::result::{most_frequent, observed_shots, Provenance};
use oqci::ir::qc::{Circuit, CircuitBuilder};
use oqci::ir::types::{Angle, ClbitId, GateKind, Param, QubitId};
use std::collections::BTreeMap;
#[test]
fn the_default_settings_choose_no_seed() {
    assert_eq!(ExecutionSettings::default().seed, None);
}

#[test]
fn the_default_settings_take_1024_shots_without_memory() {
    let settings = ExecutionSettings::default();
    assert_eq!(settings.shots, 1024);
    assert!(!settings.memory);
}



fn provenance() -> Provenance {
    Provenance {
        circuit: "t".to_string(),
        compiler_version: "0.3.0".to_string(),
        git_commit: "unknown".to_string(),
        backend_id: "simulator".to_string(),
        profile_id: "ideal-simulator@1".to_string(),
        cost_model_id: "uniform".to_string(),
        cost_model_version: "1".to_string(),
        cost_model_configuration: BTreeMap::new(),
        pass_pipeline: vec![],
        lowering_steps: vec![],
        decomposition_rules: vec![],
        initial_layout: vec![],
        final_layout: vec![],
        swaps_inserted: 0,
        shots: 10,
        seed: None,
    }
}

/// A two-qubit, two-bit circuit; on the ideal simulator lowering leaves it
/// unchanged, so it stands for its own lowered form.
fn lowered(build: impl FnOnce(&mut CircuitBuilder)) -> Circuit {
    let mut b = CircuitBuilder::new("t");
    b.alloc_qubits(2);
    b.alloc_clbits(2);
    build(&mut b);
    b.build().unwrap()
}

fn prepare(build: impl FnOnce(&mut CircuitBuilder)) -> Result<Executable, BackendError> {
    Executable::from_lowered(&lowered(build), "simulator", Default::default(), provenance())
}

fn concrete(x: f64) -> Param {
    Param::concrete(Angle::from_bits(x.to_bits()))
}

#[test]
fn a_measured_circuit_becomes_a_replayable_op_list() {
    let executable = prepare(|b| {
        b.h(QubitId(0)).cx(QubitId(0), QubitId(1)).measure(QubitId(0), ClbitId(0));
    })
    .unwrap();

    assert_eq!(executable.operations(), vec!["cx", "h", "measure"]);
    assert!(executable.has_measurement());
    assert_eq!(executable.ops[2].clbit, Some(0));
    assert_eq!(executable.num_qubits, 2);
}

#[test]
fn parameters_are_carried_as_concrete_radians() {
    let executable = prepare(|b| {
        b.rz(concrete(0.75), QubitId(0));
    })
    .unwrap();
    assert_eq!(executable.ops[0].op, "rz");
    assert!((f64::from_bits(executable.ops[0].params[0].to_bits()) - 0.75).abs() < 1e-12);
}

#[test]
fn a_symbolic_parameter_is_refused_with_advice() {
    let err = prepare(|b| {
        b.rz(Param::symbol("theta"), QubitId(0));
    })
    .unwrap_err();
    match err {
        BackendError::NotExecutable { index, detail } => {
            assert_eq!(index, 0);
            assert!(detail.contains("bind parameters"), "the error should say what to do: {detail}");
            assert!(detail.contains("`theta`"));
        }
        other => panic!("got {other:?}"),
    }
}

#[test]
fn an_opaque_operation_is_refused_rather_than_passed_through() {
    let circuit = lowered(|b| {
        b.gate(
            GateKind::Opaque { name: "iswap".to_string(), params: vec![] },
            vec![QubitId(0), QubitId(1)],
        );
    });
    let err = Executable::from_lowered(&circuit, "simulator", Default::default(), provenance())
        .unwrap_err();
    assert!(matches!(err, BackendError::NotExecutable { .. }), "got {err:?}");
    if let BackendError::NotExecutable { detail, .. } = err {
        assert_eq!(detail, "opaque operation `iswap` has no known implementation");
    }
}

#[test]
fn an_unmeasured_circuit_is_flagged_before_anything_runs() {
    let executable = prepare(|b| {
        b.h(QubitId(0));
    })
    .unwrap();
    assert!(!executable.has_measurement());
}

#[test]
fn an_executable_names_the_backend_it_was_prepared_for() {
    let executable = prepare(|b| {
        b.h(QubitId(0));
    })
    .unwrap();
    assert_eq!(executable.backend_id, "simulator");
}

#[test]
fn the_first_refused_instruction_is_the_one_reported() {
    let err = prepare(|b| {
        b.h(QubitId(0))
            .rz(Param::symbol("a"), QubitId(1))
            .rz(Param::symbol("b"), QubitId(0));
    })
    .unwrap_err();
    match err {
        BackendError::NotExecutable { index, detail } => {
            assert_eq!(index, 1);
            assert_eq!(
                detail,
                "parameter `a` is still symbolic; bind parameters before preparing for execution"
            );
        }
        other => panic!("got {other:?}"),
    }
}

#[test]
fn every_instruction_becomes_one_operation_in_order() {
    let executable = prepare(|b| {
        b.cx(QubitId(1), QubitId(0)).measure(QubitId(1), ClbitId(1));
    })
    .unwrap();
    assert_eq!(
        executable.ops,
        vec![
            ExecutableOp { op: "cx".to_string(), qubits: vec![1, 0], params: vec![], clbit: None },
            ExecutableOp {
                op: "measure".to_string(),
                qubits: vec![1],
                params: vec![],
                clbit: Some(1),
            },
        ]
    );
    assert_eq!(executable.num_clbits, 2);
    assert_eq!(executable.settings, Default::default());
    assert_eq!(executable.provenance, provenance());
}

#[test]
fn operations_are_listed_once_each() {
    let executable = prepare(|b| {
        b.h(QubitId(0)).h(QubitId(1)).cx(QubitId(0), QubitId(1)).h(QubitId(0));
    })
    .unwrap();
    assert_eq!(executable.operations(), vec!["cx", "h"]);
}

fn counts(entries: &[(&str, u64)]) -> Vec<(String, u64)> {
    let map: BTreeMap<String, u64> = entries.iter().map(|(b, n)| ((*b).to_string(), *n)).collect();
    map.into_iter().collect()
}

#[test]
fn observed_shots_come_from_the_data_not_the_request() {
    let requested: u32 = 100;
    let histogram = counts(&[("00", 40), ("11", 50)]);
    assert_eq!(requested, 100);
    assert_eq!(observed_shots(&histogram), 90);
}

#[test]
fn the_most_frequent_outcome_breaks_ties_deterministically() {
    let histogram = counts(&[("00", 50), ("11", 50)]);
    assert_eq!(most_frequent(&histogram), Some(("00".to_string(), 50)));
}

#[test]
fn an_empty_result_has_no_most_frequent_outcome() {
    assert_eq!(most_frequent(&counts(&[])), None);
    assert_eq!(observed_shots(&counts(&[])), 0);
}

#[test]
fn the_most_frequent_outcome_is_the_largest_count() {
    let histogram = counts(&[("00", 3), ("01", 9), ("10", 9), ("11", 1)]);
    assert_eq!(most_frequent(&histogram), Some(("01".to_string(), 9)));
    let unordered = vec![("10".to_string(), 9), ("01".to_string(), 9), ("00".to_string(), 2)];
    assert_eq!(most_frequent(&unordered), Some(("01".to_string(), 9)));
}

#[test]
fn the_most_frequent_outcome_does_not_depend_on_entry_order() {
    let a = vec![("11".to_string(), 7), ("00".to_string(), 7), ("01".to_string(), 2)];
    let b = vec![("01".to_string(), 2), ("00".to_string(), 7), ("11".to_string(), 7)];
    assert_eq!(most_frequent(&a), most_frequent(&b));
    assert_eq!(most_frequent(&a), Some(("00".to_string(), 7)));
}
